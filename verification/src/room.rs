//! The Room: the chat coordinator's state and message rules.
//!
//! The room holds the authoritative mapping from member identifier to
//! display name, keys unique, insertion order kept. Every rule is a pure
//! function from the member map and one input event to the records owed to
//! each recipient; the shell delivers them and owns all sockets.

use vstd::prelude::*;

verus! {

/// The member map as mathematics: identifier and name pairs, in insertion
/// order.
pub type MemberMap = Seq<(u64, Seq<u8>)>;

/// No identifier twice.
pub open spec fn unique_ids(ms: MemberMap) -> bool {
    forall|i: int, j: int| 0 <= i < j < ms.len() ==> ms[i].0 != ms[j].0
}

/// Position of an identifier in the map, or -1.
pub open spec fn index_of(ms: MemberMap, id: u64) -> int
    decreases ms.len(),
{
    if ms.len() == 0 {
        -1
    } else if ms[0].0 == id {
        0
    } else {
        let r = index_of(ms.skip(1), id);
        if r < 0 {
            -1
        } else {
            r + 1
        }
    }
}

/// The name registered for an identifier, if any.
pub open spec fn lookup(ms: MemberMap, id: u64) -> Option<Seq<u8>> {
    let i = index_of(ms, id);
    if i >= 0 {
        Some(ms[i].1)
    } else {
        None
    }
}

/// Whether an identifier is currently a member.
pub open spec fn has_member(ms: MemberMap, id: u64) -> bool {
    index_of(ms, id) >= 0
}

/// The map after registering a name: an existing entry is overwritten in
/// place, a new one goes to the end.
pub open spec fn spec_insert(ms: MemberMap, id: u64, name: Seq<u8>) -> MemberMap
    decreases ms.len(),
{
    if ms.len() == 0 {
        seq![(id, name)]
    } else if ms[0].0 == id {
        seq![(id, name)] + ms.skip(1)
    } else {
        seq![ms[0]] + spec_insert(ms.skip(1), id, name)
    }
}

/// The map after a departure: the first entry with that identifier is gone.
pub open spec fn spec_remove(ms: MemberMap, id: u64) -> MemberMap
    decreases ms.len(),
{
    if ms.len() == 0 {
        ms
    } else if ms[0].0 == id {
        ms.skip(1)
    } else {
        seq![ms[0]] + spec_remove(ms.skip(1), id)
    }
}

/// All members but one: the recipients of a broadcast that member caused.
pub open spec fn except(ms: MemberMap, id: u64) -> MemberMap
    decreases ms.len(),
{
    if ms.len() == 0 {
        ms
    } else if ms[0].0 == id {
        except(ms.skip(1), id)
    } else {
        seq![ms[0]] + except(ms.skip(1), id)
    }
}

/// The names in the map, in map order.
pub open spec fn names_of(ms: MemberMap) -> Seq<Seq<u8>> {
    ms.map_values(|p: (u64, Seq<u8>)| p.1)
}

/// The same record addressed to each of the given members, in map order.
pub open spec fn sendall(ms: MemberMap, line: Seq<u8>) -> Seq<(u64, Seq<u8>)> {
    ms.map_values(|p: (u64, Seq<u8>)| (p.0, line))
}

/// Names joined with a comma and a space.
pub open spec fn join_names(names: Seq<Seq<u8>>) -> Seq<u8>
    decreases names.len(),
{
    if names.len() == 0 {
        Seq::empty()
    } else if names.len() == 1 {
        names[0]
    } else {
        names[0] + seq![44u8, 32u8] + join_names(names.skip(1))
    }
}

/// A record with trailing carriage returns removed, as the room emits it.
pub open spec fn strip_cr(s: Seq<u8>) -> Seq<u8>
    decreases s.len(),
{
    if s.len() > 0 && s.last() == 13u8 {
        strip_cr(s.drop_last())
    } else {
        s
    }
}

/// `* NAME has entered the room`
pub open spec fn enter_notice(name: Seq<u8>) -> Seq<u8> {
    seq![42u8, 32u8] + name + seq![
        32u8, 104u8, 97u8, 115u8, 32u8, 101u8, 110u8, 116u8, 101u8, 114u8, 101u8, 100u8,
        32u8, 116u8, 104u8, 101u8, 32u8, 114u8, 111u8, 111u8, 109u8,
    ]
}

/// `* NAME has left the room`
pub open spec fn leave_notice(name: Seq<u8>) -> Seq<u8> {
    seq![42u8, 32u8] + name + seq![
        32u8, 104u8, 97u8, 115u8, 32u8, 108u8, 101u8, 102u8, 116u8, 32u8, 116u8, 104u8,
        101u8, 32u8, 114u8, 111u8, 111u8, 109u8,
    ]
}

/// `* The room contains: ` followed by the names, comma separated.
pub open spec fn contains_notice(names: Seq<Seq<u8>>) -> Seq<u8> {
    seq![
        42u8, 32u8, 84u8, 104u8, 101u8, 32u8, 114u8, 111u8, 111u8, 109u8, 32u8, 99u8,
        111u8, 110u8, 116u8, 97u8, 105u8, 110u8, 115u8, 58u8, 32u8,
    ] + join_names(names)
}

/// `[NAME] TEXT`
pub open spec fn chat_line(name: Seq<u8>, text: Seq<u8>) -> Seq<u8> {
    seq![91u8] + name + seq![93u8, 32u8] + text
}

} // verus!

verus! {

/// `index_of` finds the position whose predecessors all miss.
proof fn lemma_index_of_at(ms: MemberMap, id: u64, i: int)
    requires
        0 <= i < ms.len(),
        ms[i].0 == id,
        forall|j: int| 0 <= j < i ==> ms[j].0 != id,
    ensures
        index_of(ms, id) == i,
    decreases i,
{
    if i > 0 {
        lemma_index_of_at(ms.skip(1), id, i - 1);
    }
}

/// `index_of` misses when every entry does.
proof fn lemma_index_of_none(ms: MemberMap, id: u64)
    requires
        forall|j: int| 0 <= j < ms.len() ==> ms[j].0 != id,
    ensures
        index_of(ms, id) == -1,
    decreases ms.len(),
{
    if ms.len() > 0 {
        lemma_index_of_none(ms.skip(1), id);
    }
}

/// Registering an existing identifier overwrites its entry in place.
proof fn lemma_insert_found(ms: MemberMap, id: u64, name: Seq<u8>, i: int)
    requires
        0 <= i < ms.len(),
        ms[i].0 == id,
        forall|j: int| 0 <= j < i ==> ms[j].0 != id,
    ensures
        spec_insert(ms, id, name) == ms.update(i, (id, name)),
    decreases i,
{
    if i == 0 {
        assert(spec_insert(ms, id, name) =~= ms.update(0, (id, name)));
    } else {
        lemma_insert_found(ms.skip(1), id, name, i - 1);
        assert(ms.skip(1).update(i - 1, (id, name)) =~= ms.update(i, (id, name)).skip(1));
        assert(spec_insert(ms, id, name) =~= ms.update(i, (id, name)));
    }
}

/// Registering a fresh identifier appends its entry.
proof fn lemma_insert_missing(ms: MemberMap, id: u64, name: Seq<u8>)
    requires
        forall|j: int| 0 <= j < ms.len() ==> ms[j].0 != id,
    ensures
        spec_insert(ms, id, name) == ms.push((id, name)),
    decreases ms.len(),
{
    if ms.len() == 0 {
        assert(spec_insert(ms, id, name) =~= ms.push((id, name)));
    } else {
        lemma_insert_missing(ms.skip(1), id, name);
        assert(ms.skip(1).push((id, name)) =~= ms.push((id, name)).skip(1));
        assert(spec_insert(ms, id, name) =~= ms.push((id, name)));
    }
}

/// Removing an identifier takes out exactly its entry.
proof fn lemma_remove_found(ms: MemberMap, id: u64, i: int)
    requires
        0 <= i < ms.len(),
        ms[i].0 == id,
        forall|j: int| 0 <= j < i ==> ms[j].0 != id,
    ensures
        spec_remove(ms, id) == ms.remove(i),
    decreases i,
{
    if i == 0 {
        assert(spec_remove(ms, id) =~= ms.remove(0));
    } else {
        lemma_remove_found(ms.skip(1), id, i - 1);
        assert(ms.skip(1).remove(i - 1) =~= ms.remove(i).skip(1));
        assert(spec_remove(ms, id) =~= ms.remove(i));
    }
}

/// Removing an absent identifier changes nothing.
proof fn lemma_remove_missing(ms: MemberMap, id: u64)
    requires
        forall|j: int| 0 <= j < ms.len() ==> ms[j].0 != id,
    ensures
        spec_remove(ms, id) == ms,
    decreases ms.len(),
{
    if ms.len() > 0 {
        lemma_remove_missing(ms.skip(1), id);
        assert(spec_remove(ms, id) =~= ms);
    }
}

/// The chat coordinator's authoritative state: who is in the room, under
/// what name.
#[derive(Debug)]
pub struct Room {
    members: Vec<(u64, Vec<u8>)>,
}

impl View for Room {
    type V = MemberMap;

    closed spec fn view(&self) -> MemberMap {
        self.members@.map_values(|p: (u64, Vec<u8>)| (p.0, p.1@))
    }
}

impl Room {
    /// The room's invariant: member identifiers are unique.
    pub open spec fn wf(&self) -> bool {
        unique_ids(self@)
    }

    /// An empty room.
    pub fn new() -> (r: Room)
        ensures
            r@ == Seq::<(u64, Seq<u8>)>::empty(),
            r.wf(),
    {
        let r = Room { members: Vec::new() };
        proof {
            assert(r@ =~= Seq::<(u64, Seq<u8>)>::empty());
        }
        r
    }

    /// Position of a member in the backing vector.
    fn find_index(&self, member_id: u64) -> (r: Option<usize>)
        ensures
            match r {
                Some(i) => {
                    &&& i < self@.len()
                    &&& index_of(self@, member_id) == i as int
                    &&& self@[i as int].0 == member_id
                    &&& forall|j: int| 0 <= j < i ==> self@[j].0 != member_id
                },
                None => {
                    &&& index_of(self@, member_id) == -1
                    &&& forall|j: int| 0 <= j < self@.len() ==> self@[j].0 != member_id
                },
            },
    {
        let n = self.members.len();
        let mut i: usize = 0;
        while i < n
            invariant
                i <= n,
                n == self.members@.len(),
                self@.len() == self.members@.len(),
                forall|j: int| 0 <= j < self@.len() ==> self@[j].0 == self.members@[j].0,
                forall|j: int| 0 <= j < i ==> self@[j].0 != member_id,
            decreases n - i,
        {
            if self.members[i].0 == member_id {
                proof {
                    lemma_index_of_at(self@, member_id, i as int);
                }
                return Some(i);
            }
            i = i + 1;
        }
        proof {
            lemma_index_of_none(self@, member_id);
        }
        None
    }

    /// Add a member to the chat room, replacing the name of a returning
    /// identifier, keeping insertion order otherwise.
    pub fn add_member(&mut self, member_id: u64, member_name: &Vec<u8>)
        requires
            old(self).wf(),
        ensures
            final(self)@ == spec_insert(old(self)@, member_id, member_name@),
            final(self).wf(),
    {
        match self.find_index(member_id) {
            Some(i) => {
                proof {
                    lemma_insert_found(self@, member_id, member_name@, i as int);
                }
                let ghost before = self@;
                self.members[i] = (member_id, member_name.clone());
                proof {
                    assert(self@ =~= before.update(i as int, (member_id, member_name@)));
                    assert(forall|j: int|
                        0 <= j < self@.len() ==> self@[j].0 == before[j].0);
                }
            },
            None => {
                let ghost before = self@;
                proof {
                    lemma_insert_missing(self@, member_id, member_name@);
                }
                self.members.push((member_id, member_name.clone()));
                proof {
                    assert(self@ =~= before.push((member_id, member_name@)));
                    assert(forall|j: int| 0 <= j < before.len() ==> self@[j] == before[j]);
                }
            },
        }
    }

    /// Remove a member from the chat room; an unknown identifier is
    /// ignored.
    pub fn remove_member(&mut self, member_id: u64)
        requires
            old(self).wf(),
        ensures
            final(self)@ == spec_remove(old(self)@, member_id),
            final(self).wf(),
    {
        match self.find_index(member_id) {
            Some(i) => {
                proof {
                    lemma_remove_found(self@, member_id, i as int);
                }
                let ghost before = self@;
                self.members.remove(i);
                proof {
                    assert(self@ =~= before.remove(i as int));
                    assert(forall|j: int|
                        0 <= j < self@.len() ==> self@[j] == if j < i as int {
                            before[j]
                        } else {
                            before[j + 1]
                        });
                }
            },
            None => {
                proof {
                    lemma_remove_missing(self@, member_id);
                }
            },
        }
    }

    /// The name of a member in the room, if it has one.
    pub fn get_name(&self, member_id: u64) -> (r: Option<Vec<u8>>)
        ensures
            match r {
                Some(n) => lookup(self@, member_id) == Some(n@),
                None => lookup(self@, member_id) is None,
            },
    {
        match self.find_index(member_id) {
            Some(i) => Some(self.members[i].1.clone()),
            None => None,
        }
    }
}

} // verus!

verus! {

/// One more recipient extends a fan-out by one record.
proof fn lemma_sendall_push(ms: MemberMap, x: (u64, Seq<u8>), line: Seq<u8>)
    ensures
        sendall(ms.push(x), line) == sendall(ms, line).push((x.0, line)),
{
    assert(sendall(ms.push(x), line) =~= sendall(ms, line).push((x.0, line)));
}

/// One more member extends the others-list, unless it is the one excepted.
proof fn lemma_except_push(ms: MemberMap, x: (u64, Seq<u8>), id: u64)
    ensures
        except(ms.push(x), id) == if x.0 == id {
            except(ms, id)
        } else {
            except(ms, id).push(x)
        },
    decreases ms.len(),
{
    if ms.len() == 0 {
        assert(ms.push(x)[0] == x);
        assert(ms.push(x).skip(1) =~= Seq::<(u64, Seq<u8>)>::empty());
        assert(except(Seq::<(u64, Seq<u8>)>::empty(), id) == Seq::<(u64, Seq<u8>)>::empty());
        if x.0 == id {
            assert(except(ms.push(x), id) =~= except(ms, id));
        } else {
            assert(except(ms.push(x), id) == seq![x] + Seq::<(u64, Seq<u8>)>::empty());
            assert(except(ms.push(x), id) =~= except(ms, id).push(x));
        }
    } else {
        assert(ms.push(x).skip(1) =~= ms.skip(1).push(x));
        lemma_except_push(ms.skip(1), x, id);
        if x.0 == id {
            assert(except(ms.push(x), id) =~= except(ms, id));
        } else {
            assert(except(ms.push(x), id) =~= except(ms, id).push(x));
        }
    }
}

/// One more name extends a comma-joined list by a separator and the name.
proof fn lemma_join_push(names: Seq<Seq<u8>>, x: Seq<u8>)
    ensures
        join_names(names.push(x)) == if names.len() == 0 {
            x
        } else {
            join_names(names) + seq![44u8, 32u8] + x
        },
    decreases names.len(),
{
    if names.len() == 0 {
        assert(names.push(x)[0] == x);
        assert(join_names(names.push(x)) == x);
    } else if names.len() == 1 {
        assert(names.push(x)[0] == names[0]);
        assert(names.push(x).skip(1) =~= seq![x]);
        assert(join_names(seq![x]) == x);
        assert(join_names(names.push(x)) == names[0] + seq![44u8, 32u8] + x);
        assert(join_names(names) + seq![44u8, 32u8] + x == names[0] + seq![44u8, 32u8] + x);
    } else {
        assert(names.push(x).skip(1) =~= names.skip(1).push(x));
        lemma_join_push(names.skip(1), x);
        assert(join_names(names.push(x)) == names[0] + seq![44u8, 32u8] + (join_names(
            names.skip(1),
        ) + seq![44u8, 32u8] + x));
        assert(names[0] + seq![44u8, 32u8] + (join_names(names.skip(1)) + seq![44u8, 32u8] + x)
            =~= (names[0] + seq![44u8, 32u8] + join_names(names.skip(1))) + seq![44u8, 32u8] + x);
    }
}

/// `index_of` stays inside the map or reports -1.
proof fn lemma_index_of_bounds(ms: MemberMap, id: u64)
    ensures
        -1 <= index_of(ms, id) < ms.len(),
    decreases ms.len(),
{
    if ms.len() > 0 && ms[0].0 != id {
        lemma_index_of_bounds(ms.skip(1), id);
    }
}

/// The name just registered is the one the map now answers with.
proof fn lemma_lookup_insert(ms: MemberMap, id: u64, name: Seq<u8>)
    ensures
        lookup(spec_insert(ms, id, name), id) == Some(name),
    decreases ms.len(),
{
    let ms2 = spec_insert(ms, id, name);
    if ms.len() == 0 {
        assert(index_of(ms2, id) == 0);
    } else if ms[0].0 == id {
        assert(ms2[0] == (id, name));
        assert(index_of(ms2, id) == 0);
    } else {
        lemma_lookup_insert(ms.skip(1), id, name);
        assert(ms2[0] == ms[0]);
        assert(ms2[0].0 != id);
        assert(ms2.skip(1) =~= spec_insert(ms.skip(1), id, name));
        let i = index_of(ms2.skip(1), id);
        lemma_index_of_bounds(ms2.skip(1), id);
        assert(i >= 0 && ms2.skip(1)[i].1 == name);
        assert(index_of(ms2, id) == i + 1);
        assert(ms2[i + 1] == ms2.skip(1)[i]);
    }
}

/// `strip_cr` keeps the prefix up to the last byte that is not CR.
proof fn lemma_strip_cr_at(s: Seq<u8>, b: int)
    requires
        0 <= b <= s.len(),
        forall|j: int| b <= j < s.len() ==> s[j] == 13u8,
        b > 0 ==> s[b - 1] != 13u8,
    ensures
        strip_cr(s) == s.take(b),
    decreases s.len(),
{
    if b == s.len() {
        assert(s.take(b) =~= s);
    } else {
        assert(s.last() == 13u8);
        lemma_strip_cr_at(s.drop_last(), b);
        assert(s.drop_last().take(b) =~= s.take(b));
    }
}

/// Copy a record, dropping the carriage returns at its tail.
fn strip_cr_bytes(text: &Vec<u8>) -> (r: Vec<u8>)
    ensures
        r@ == strip_cr(text@),
{
    let n = text.len();
    let mut b: usize = n;
    while b > 0 && text[b - 1] == 13u8
        invariant
            b <= n,
            n == text@.len(),
            forall|j: int| b <= j < n ==> text@[j] == 13u8,
        decreases b,
    {
        b = b - 1;
    }
    proof {
        lemma_strip_cr_at(text@, b as int);
    }
    let mut r: Vec<u8> = Vec::new();
    let mut k: usize = 0;
    while k < b
        invariant
            k <= b <= n,
            n == text@.len(),
            r@ == text@.take(k as int),
        decreases b - k,
    {
        r.push(text[k]);
        assert(text@.take(k + 1) == text@.take(k as int).push(text@[k as int]));
        k = k + 1;
    }
    r
}

/// Build `* NAME has entered the room`.
fn enter_notice_bytes(name: &Vec<u8>) -> (r: Vec<u8>)
    ensures
        r@ == enter_notice(name@),
{
    let mut v: Vec<u8> = vec![42u8, 32u8];
    v.extend_from_slice(name.as_slice());
    let tail: Vec<u8> = vec![
        32u8, 104u8, 97u8, 115u8, 32u8, 101u8, 110u8, 116u8, 101u8, 114u8, 101u8, 100u8,
        32u8, 116u8, 104u8, 101u8, 32u8, 114u8, 111u8, 111u8, 109u8,
    ];
    v.extend_from_slice(tail.as_slice());
    proof {
        assert(v@ =~= enter_notice(name@));
    }
    v
}

/// Build `* NAME has left the room`.
fn leave_notice_bytes(name: &Vec<u8>) -> (r: Vec<u8>)
    ensures
        r@ == leave_notice(name@),
{
    let mut v: Vec<u8> = vec![42u8, 32u8];
    v.extend_from_slice(name.as_slice());
    let tail: Vec<u8> = vec![
        32u8, 104u8, 97u8, 115u8, 32u8, 108u8, 101u8, 102u8, 116u8, 32u8, 116u8, 104u8,
        101u8, 32u8, 114u8, 111u8, 111u8, 109u8,
    ];
    v.extend_from_slice(tail.as_slice());
    proof {
        assert(v@ =~= leave_notice(name@));
    }
    v
}

/// Build `[NAME] TEXT` from a name and an already-stripped text.
fn chat_line_bytes(name: &Vec<u8>, text: &Vec<u8>) -> (r: Vec<u8>)
    ensures
        r@ == chat_line(name@, text@),
{
    let mut v: Vec<u8> = vec![91u8];
    v.extend_from_slice(name.as_slice());
    v.push(93u8);
    v.push(32u8);
    v.extend_from_slice(text.as_slice());
    proof {
        assert(v@ =~= chat_line(name@, text@));
    }
    v
}

/// Build `* The room contains: ` plus the names, comma separated.
fn contains_notice_bytes(names: &Vec<Vec<u8>>) -> (r: Vec<u8>)
    ensures
        r@ == contains_notice(names_view(names@)),
{
    let ghost vnames = names_view(names@);
    let mut v: Vec<u8> = vec![
        42u8, 32u8, 84u8, 104u8, 101u8, 32u8, 114u8, 111u8, 111u8, 109u8, 32u8, 99u8,
        111u8, 110u8, 116u8, 97u8, 105u8, 110u8, 115u8, 58u8, 32u8,
    ];
    let ghost prefix = v@;
    assert(prefix + join_names(vnames.take(0)) =~= v@);
    let n = names.len();
    let mut k: usize = 0;
    while k < n
        invariant
            k <= n,
            n == names@.len(),
            vnames == names@.map_values(|n: Vec<u8>| n@),
            vnames.len() == n,
            v@ == prefix + join_names(vnames.take(k as int)),
        decreases n - k,
    {
        proof {
            lemma_join_push(vnames.take(k as int), vnames[k as int]);
            assert(vnames.take(k + 1) == vnames.take(k as int).push(vnames[k as int]));
        }
        let ghost before = v@;
        if k > 0 {
            v.push(44u8);
            v.push(32u8);
        }
        v.extend_from_slice(names[k].as_slice());
        proof {
            if k == 0 {
                assert(v@ =~= prefix + join_names(vnames.take(k + 1)));
            } else {
                assert(v@ == before + seq![44u8, 32u8] + vnames[k as int]);
                assert(v@ =~= prefix + join_names(vnames.take(k + 1)));
            }
        }
        k = k + 1;
    }
    proof {
        assert(vnames.take(n as int) == vnames);
    }
    v
}

} // verus!

verus! {

/// The mathematical reading of a list of (recipient, record) pairs.
pub open spec fn outs_view(v: Seq<(u64, Vec<u8>)>) -> Seq<(u64, Seq<u8>)> {
    v.map_values(|p: (u64, Vec<u8>)| (p.0, p.1@))
}

/// The mathematical reading of a list of names.
pub open spec fn names_view(v: Seq<Vec<u8>>) -> Seq<Seq<u8>> {
    v.map_values(|x: Vec<u8>| x@)
}

impl Room {
    /// All members but one, in map order.
    fn members_except(&self, member_id: u64) -> (r: Vec<(u64, Vec<u8>)>)
        ensures
            outs_view(r@) == except(self@, member_id),
    {
        let n = self.members.len();
        let mut k: usize = 0;
        let mut out: Vec<(u64, Vec<u8>)> = Vec::new();
        while k < n
            invariant
                k <= n,
                n == self.members@.len(),
                self@.len() == n,
                forall|j: int|
                    0 <= j < n ==> self@[j] == (self.members@[j].0, self.members@[j].1@),
                outs_view(out@) == except(self@.take(k as int), member_id),
            decreases n - k,
        {
            proof {
                lemma_except_push(self@.take(k as int), self@[k as int], member_id);
                assert(self@.take(k + 1) == self@.take(k as int).push(self@[k as int]));
            }
            let entry = &self.members[k];
            if entry.0 != member_id {
                let ghost before = out@;
                out.push((entry.0, entry.1.clone()));
                proof {
                    assert(outs_view(out@) =~= outs_view(before).push(
                        (self@[k as int].0, self@[k as int].1),
                    ));
                    assert(self@[k as int] == (self@[k as int].0, self@[k as int].1));
                }
            }
            k = k + 1;
        }
        proof {
            assert(self@.take(n as int) == self@);
        }
        out
    }

    /// The names of all the members except for the given one.
    fn member_names_except(&self, member_id: u64) -> (r: Vec<Vec<u8>>)
        ensures
            names_view(r@) == names_of(except(self@, member_id)),
    {
        let others = self.members_except(member_id);
        let ghost exc = except(self@, member_id);
        let n = others.len();
        let mut r: Vec<Vec<u8>> = Vec::new();
        let mut k: usize = 0;
        while k < n
            invariant
                k <= n,
                n == others@.len(),
                outs_view(others@) == exc,
                exc.len() == n,
                names_view(r@) == names_of(exc.take(k as int)),
            decreases n - k,
        {
            let ghost before = r@;
            let name_copy = others[k].1.clone();
            proof {
                assert(name_copy@ == others@[k as int].1@);
            }
            r.push(name_copy);
            proof {
                assert(exc[k as int] == (others@[k as int].0, others@[k as int].1@));
                assert(exc.take(k + 1) == exc.take(k as int).push(exc[k as int]));
                assert(names_view(before).len() == before.len());
                assert(names_of(exc.take(k as int)).len() == exc.take(k as int).len());
                assert forall|j: int| 0 <= j < k + 1 implies names_view(r@)[j] == names_of(
                    exc.take(k + 1),
                )[j] by {
                    if j < k as int {
                        assert(names_view(before)[j] == before[j]@);
                        assert(names_of(exc.take(k as int))[j] == exc.take(k as int)[j].1);
                    }
                }
                assert(names_view(r@) =~= names_of(exc.take(k + 1)));
            }
            k = k + 1;
        }
        proof {
            assert(exc.take(n as int) == exc);
        }
        r
    }

    /// Address one record to every member but one.
    fn fan_out(&self, except_id: u64, line: &Vec<u8>) -> (outs: Vec<(u64, Vec<u8>)>)
        ensures
            outs_view(outs@) == sendall(except(self@, except_id), line@),
    {
        let others = self.members_except(except_id);
        let ghost exc = except(self@, except_id);
        let n = others.len();
        let mut outs: Vec<(u64, Vec<u8>)> = Vec::new();
        let mut k: usize = 0;
        while k < n
            invariant
                k <= n,
                n == others@.len(),
                outs_view(others@) == exc,
                exc.len() == n,
                outs_view(outs@) == sendall(exc.take(k as int), line@),
            decreases n - k,
        {
            let ghost before = outs@;
            outs.push((others[k].0, line.clone()));
            proof {
                lemma_sendall_push(exc.take(k as int), exc[k as int], line@);
                assert(exc.take(k + 1) == exc.take(k as int).push(exc[k as int]));
                assert(exc[k as int].0 == others@[k as int].0);
                assert(outs_view(outs@) =~= sendall(exc.take(k + 1), line@));
            }
            k = k + 1;
        }
        proof {
            assert(exc.take(n as int) == exc);
        }
        outs
    }

    /// Tell a member who else is in the room right now: one record, to it
    /// alone, listing the other members' names.
    pub fn notify_member_of_other_members(&self, newly_connected_member: u64) -> (outs: Vec<
        (u64, Vec<u8>),
    >)
        ensures
            outs_view(outs@) == seq![
                (
                    newly_connected_member,
                    contains_notice(names_of(except(self@, newly_connected_member))),
                ),
            ],
    {
        let names = self.member_names_except(newly_connected_member);
        let line = contains_notice_bytes(&names);
        let mut outs: Vec<(u64, Vec<u8>)> = Vec::new();
        outs.push((newly_connected_member, line));
        proof {
            assert(outs_view(outs@) =~= seq![
                (
                    newly_connected_member,
                    contains_notice(names_of(except(self@, newly_connected_member))),
                ),
            ]);
        }
        outs
    }

    /// Tell everyone else that a member has entered. A connected member
    /// the room has no name for draws no notices.
    pub fn notify_others_of_new_member(&self, connected_member: u64) -> (outs: Vec<
        (u64, Vec<u8>),
    >)
        ensures
            match lookup(self@, connected_member) {
                Some(n) => outs_view(outs@) == sendall(
                    except(self@, connected_member),
                    enter_notice(n),
                ),
                None => outs@.len() == 0,
            },
    {
        match self.get_name(connected_member) {
            Some(name) => {
                let line = enter_notice_bytes(&name);
                self.fan_out(connected_member, &line)
            },
            None => Vec::new(),
        }
    }

    /// Tell the remaining members that one has left. An identifier the
    /// room never knew draws no notices.
    pub fn notify_others_of_disconnection(&self, disconnected_member: u64) -> (outs: Vec<
        (u64, Vec<u8>),
    >)
        ensures
            match lookup(self@, disconnected_member) {
                Some(n) => outs_view(outs@) == sendall(
                    except(self@, disconnected_member),
                    leave_notice(n),
                ),
                None => outs@.len() == 0,
            },
    {
        match self.get_name(disconnected_member) {
            Some(name) => {
                let line = leave_notice_bytes(&name);
                self.fan_out(disconnected_member, &line)
            },
            None => Vec::new(),
        }
    }

    /// Format a member's text for relay: `[NAME] TEXT`, with trailing
    /// carriage returns stripped from the text. Unknown senders format
    /// nothing.
    pub fn create_message_from_member(&self, member_id: u64, message: &Vec<u8>) -> (r: Option<
        Vec<u8>,
    >)
        ensures
            match lookup(self@, member_id) {
                Some(n) => r matches Some(line) && line@ == chat_line(n, strip_cr(message@)),
                None => r is None,
            },
    {
        match self.get_name(member_id) {
            Some(name) => {
                let text = strip_cr_bytes(message);
                Some(chat_line_bytes(&name, &text))
            },
            None => None,
        }
    }

    /// Relay a member's text to every other member, prefixed with the
    /// sender's name. Text from an unknown sender is dropped.
    pub fn broadcast_message_to_other_members_except(
        &self,
        except_member_id: u64,
        message: &Vec<u8>,
    ) -> (outs: Vec<(u64, Vec<u8>)>)
        ensures
            match lookup(self@, except_member_id) {
                Some(n) => outs_view(outs@) == sendall(
                    except(self@, except_member_id),
                    chat_line(n, strip_cr(message@)),
                ),
                None => outs@.len() == 0,
            },
    {
        match self.create_message_from_member(except_member_id, message) {
            Some(line) => self.fan_out(except_member_id, &line),
            None => Vec::new(),
        }
    }
}

} // verus!

verus! {

/// One input event for the room, as the shell delivers them.
#[derive(Debug, Clone, PartialEq, Eq)]
pub enum RoomEvent {
    Connected(u64, Vec<u8>),
    Disconnected(u64),
    Message(u64, Vec<u8>),
}

/// The mathematical reading of an input event.
pub enum EventV {
    Connected(u64, Seq<u8>),
    Disconnected(u64),
    Message(u64, Seq<u8>),
}

impl View for RoomEvent {
    type V = EventV;

    open spec fn view(&self) -> EventV {
        match self {
            RoomEvent::Connected(id, name) => EventV::Connected(*id, name@),
            RoomEvent::Disconnected(id) => EventV::Disconnected(*id),
            RoomEvent::Message(id, text) => EventV::Message(*id, text@),
        }
    }
}

/// How one event changes the member map.
pub open spec fn apply_event(ms: MemberMap, e: EventV) -> MemberMap {
    match e {
        EventV::Connected(id, name) => spec_insert(ms, id, name),
        EventV::Disconnected(id) => spec_remove(ms, id),
        EventV::Message(id, text) => ms,
    }
}

/// The records one event makes the room emit, in emission order.
pub open spec fn event_outputs(ms: MemberMap, e: EventV) -> Seq<(u64, Seq<u8>)> {
    match e {
        EventV::Connected(id, name) => {
            let ms2 = spec_insert(ms, id, name);
            sendall(except(ms2, id), enter_notice(name)) + seq![
                (id, contains_notice(names_of(except(ms2, id)))),
            ]
        },
        EventV::Disconnected(id) => match lookup(ms, id) {
            Some(n) => sendall(except(ms, id), leave_notice(n)),
            None => Seq::empty(),
        },
        EventV::Message(id, text) => match lookup(ms, id) {
            Some(n) => sendall(except(ms, id), chat_line(n, strip_cr(text))),
            None => Seq::empty(),
        },
    }
}

impl Room {
    /// Drive the room by one event, in arrival order: register or remove
    /// the member, and hand back every record now owed, each with its
    /// recipient, in emission order.
    pub fn process_event(&mut self, event: RoomEvent) -> (outs: Vec<(u64, Vec<u8>)>)
        requires
            old(self).wf(),
        ensures
            final(self).wf(),
            final(self)@ == apply_event(old(self)@, event@),
            outs_view(outs@) == event_outputs(old(self)@, event@),
    {
        match event {
            RoomEvent::Connected(id, name) => {
                let ghost before = self@;
                self.add_member(id, &name);
                proof {
                    lemma_lookup_insert(before, id, name@);
                }
                let mut outs = self.notify_others_of_new_member(id);
                let ghost first = outs@;
                let mut more = self.notify_member_of_other_members(id);
                let ghost second = more@;
                outs.append(&mut more);
                proof {
                    assert(outs_view(first + second) =~= outs_view(first) + outs_view(second));
                    assert(outs_view(outs@) =~= event_outputs(before, event@));
                }
                outs
            },
            RoomEvent::Disconnected(id) => {
                let outs = self.notify_others_of_disconnection(id);
                self.remove_member(id);
                proof {
                    if lookup(self@, id) is None {
                        assert(outs_view(outs@) =~= event_outputs(old(self)@, event@));
                    }
                }
                outs
            },
            RoomEvent::Message(id, text) => {
                let outs = self.broadcast_message_to_other_members_except(id, &text);
                proof {
                    if lookup(self@, id) is None {
                        assert(outs_view(outs@) =~= event_outputs(old(self)@, event@));
                    }
                }
                outs
            },
        }
    }
}

} // verus!

verus! {

/// Every identifier that appears in the map is a member.
proof fn lemma_has_member_at(ms: MemberMap, j: int)
    requires
        0 <= j < ms.len(),
    ensures
        has_member(ms, ms[j].0),
    decreases j,
{
    if ms[0].0 == ms[j].0 {
    } else {
        lemma_has_member_at(ms.skip(1), j - 1);
    }
}

/// Every entry of the others-list avoids the excepted identifier and comes
/// from the map itself.
proof fn lemma_except_entry(ms: MemberMap, id: u64, k: int)
    requires
        0 <= k < except(ms, id).len(),
    ensures
        except(ms, id)[k].0 != id,
        exists|j: int| 0 <= j < ms.len() && ms[j] == except(ms, id)[k],
    decreases ms.len(),
{
    if ms.len() > 0 {
        if ms[0].0 == id {
            lemma_except_entry(ms.skip(1), id, k);
            let j0 = choose|j: int|
                0 <= j < ms.skip(1).len() && ms.skip(1)[j] == except(ms.skip(1), id)[k];
            assert(ms[j0 + 1] == except(ms, id)[k]);
        } else {
            if k == 0 {
                assert(ms[0] == except(ms, id)[0]);
            } else {
                assert(except(ms, id)[k] == except(ms.skip(1), id)[k - 1]);
                lemma_except_entry(ms.skip(1), id, k - 1);
                let j0 = choose|j: int|
                    0 <= j < ms.skip(1).len() && ms.skip(1)[j] == except(ms.skip(1), id)[k - 1];
                assert(ms[j0 + 1] == except(ms, id)[k]);
            }
        }
    }
}

/// Every other member has its entry in the others-list.
proof fn lemma_except_has(ms: MemberMap, id: u64, other: u64)
    requires
        has_member(ms, other),
        other != id,
    ensures
        exists|k: int|
            0 <= k < except(ms, id).len() && except(ms, id)[k] == (
                other,
                lookup(ms, other)->Some_0,
            ),
    decreases ms.len(),
{
    if ms[0].0 == other {
        assert(ms[0] == (other, ms[0].1));
        assert(except(ms, id)[0] == (other, lookup(ms, other)->Some_0));
    } else {
        assert(index_of(ms.skip(1), other) >= 0);
        lemma_index_of_bounds(ms.skip(1), other);
        let i = index_of(ms.skip(1), other);
        assert(ms[i + 1] == ms.skip(1)[i]);
        assert(lookup(ms, other) == lookup(ms.skip(1), other));
        lemma_except_has(ms.skip(1), id, other);
        let k0 = choose|k: int|
            0 <= k < except(ms.skip(1), id).len() && except(ms.skip(1), id)[k] == (
                other,
                lookup(ms.skip(1), other)->Some_0,
            );
        if ms[0].0 == id {
            assert(except(ms, id)[k0] == (other, lookup(ms, other)->Some_0));
        } else {
            assert(except(ms, id)[k0 + 1] == (other, lookup(ms, other)->Some_0));
        }
    }
}

/// Law of relay: the text a member sends is delivered, prefixed with the
/// sender's name, to every other member present when the room processes
/// it, and to no one else; in particular never back to the sender.
pub proof fn lemma_relay_exactly_others(ms: MemberMap, sender: u64, text: Seq<u8>)
    requires
        has_member(ms, sender),
    ensures
        ({
            let line = chat_line(lookup(ms, sender)->Some_0, strip_cr(text));
            let outs = event_outputs(ms, EventV::Message(sender, text));
            &&& forall|k: int| 0 <= k < outs.len() ==> outs[k].0 != sender
            &&& forall|k: int|
                0 <= k < outs.len() ==> has_member(ms, outs[k].0) && outs[k].1 == line
            &&& forall|id: u64|
                id != sender && has_member(ms, id) ==> exists|k: int|
                    0 <= k < outs.len() && outs[k] == (id, line)
        }),
{
    let line = chat_line(lookup(ms, sender)->Some_0, strip_cr(text));
    let outs = event_outputs(ms, EventV::Message(sender, text));
    let exc = except(ms, sender);
    assert(outs == sendall(exc, line));
    assert forall|k: int| 0 <= k < outs.len() implies outs[k].0 != sender && has_member(
        ms,
        outs[k].0,
    ) && outs[k].1 == line by {
        assert(outs[k] == (exc[k].0, line));
        lemma_except_entry(ms, sender, k);
        let j = choose|j: int| 0 <= j < ms.len() && ms[j] == exc[k];
        lemma_has_member_at(ms, j);
    }
    assert forall|id: u64| id != sender && has_member(ms, id) implies exists|k: int|
        0 <= k < outs.len() && outs[k] == (id, line) by {
        lemma_except_has(ms, sender, id);
        let k = choose|k: int|
            0 <= k < exc.len() && exc[k] == (id, lookup(ms, id)->Some_0);
        assert(outs[k] == (id, line));
    }
}

/// The member map after a run of events, processed in arrival order from
/// an empty room.
pub open spec fn room_after(es: Seq<EventV>) -> MemberMap
    decreases es.len(),
{
    if es.len() == 0 {
        Seq::empty()
    } else {
        apply_event(room_after(es.drop_last()), es.last())
    }
}

/// Whether an event is the connection of the given member.
pub open spec fn is_connect_of(e: EventV, id: u64) -> bool {
    match e {
        EventV::Connected(c, _) => c == id,
        _ => false,
    }
}

/// Registering someone else neither adds nor removes this identifier.
proof fn lemma_has_member_insert_other(ms: MemberMap, id2: u64, name: Seq<u8>, id: u64)
    requires
        id != id2,
        has_member(spec_insert(ms, id2, name), id),
    ensures
        has_member(ms, id),
    decreases ms.len(),
{
    let ms2 = spec_insert(ms, id2, name);
    if ms.len() == 0 {
        assert(ms2 == seq![(id2, name)]);
        assert(index_of(ms2.skip(1), id) == -1);
        assert(!has_member(ms2, id));
    } else if ms[0].0 == id2 {
        assert(ms2[0].0 == id2);
        assert(ms2.skip(1) =~= ms.skip(1));
        assert(index_of(ms.skip(1), id) >= 0);
        lemma_has_member_at_front(ms, id);
    } else {
        assert(ms2[0] == ms[0]);
        assert(ms2.skip(1) =~= spec_insert(ms.skip(1), id2, name));
        if ms[0].0 == id {
        } else {
            assert(index_of(ms2.skip(1), id) >= 0);
            lemma_has_member_insert_other(ms.skip(1), id2, name, id);
        }
    }
}

/// A member of the tail is a member of the whole map.
proof fn lemma_has_member_at_front(ms: MemberMap, id: u64)
    requires
        ms.len() > 0,
        has_member(ms.skip(1), id) || ms[0].0 == id,
    ensures
        has_member(ms, id),
{
    if ms[0].0 != id {
        assert(index_of(ms.skip(1), id) >= 0);
    }
}

/// A member who survives a removal was a member before it.
proof fn lemma_has_member_remove(ms: MemberMap, d: u64, id: u64)
    requires
        has_member(spec_remove(ms, d), id),
    ensures
        has_member(ms, id),
    decreases ms.len(),
{
    if ms.len() == 0 {
    } else if ms[0].0 == d {
        lemma_has_member_at_front(ms, id);
    } else {
        let ms2 = spec_remove(ms, d);
        assert(ms2[0] == ms[0]);
        assert(ms2.skip(1) =~= spec_remove(ms.skip(1), d));
        if ms[0].0 == id {
        } else {
            assert(index_of(ms2.skip(1), id) >= 0);
            lemma_has_member_remove(ms.skip(1), d, id);
            lemma_has_member_at_front(ms, id);
        }
    }
}

/// Whoever is in the room after a run of events was connected by one of
/// them.
pub proof fn lemma_member_only_after_connect(es: Seq<EventV>, id: u64)
    requires
        has_member(room_after(es), id),
    ensures
        exists|k: int| 0 <= k < es.len() && is_connect_of(es[k], id),
    decreases es.len(),
{
    let prev = room_after(es.drop_last());
    match es.last() {
        EventV::Connected(c, n) => {
            if c == id {
                assert(is_connect_of(es[es.len() - 1], id));
            } else {
                lemma_has_member_insert_other(prev, c, n, id);
                lemma_member_only_after_connect(es.drop_last(), id);
                let k = choose|k: int|
                    0 <= k < es.drop_last().len() && is_connect_of(es.drop_last()[k], id);
                assert(es[k] == es.drop_last()[k]);
            }
        },
        EventV::Disconnected(d) => {
            lemma_has_member_remove(prev, d, id);
            lemma_member_only_after_connect(es.drop_last(), id);
            let k = choose|k: int|
                0 <= k < es.drop_last().len() && is_connect_of(es.drop_last()[k], id);
            assert(es[k] == es.drop_last()[k]);
        },
        EventV::Message(_, _) => {
            lemma_member_only_after_connect(es.drop_last(), id);
            let k = choose|k: int|
                0 <= k < es.drop_last().len() && is_connect_of(es.drop_last()[k], id);
            assert(es[k] == es.drop_last()[k]);
        },
    }
}

/// Law: the room never emits a leave notice for a member that never
/// joined. A departure draws notices only when the identifier is known,
/// and it is known only after one of the processed events connected it.
pub proof fn lemma_no_leave_without_join(es: Seq<EventV>, id: u64)
    ensures
        lookup(room_after(es), id) is None ==> event_outputs(
            room_after(es),
            EventV::Disconnected(id),
        ).len() == 0,
        event_outputs(room_after(es), EventV::Disconnected(id)).len() > 0 ==> exists|k: int|
            0 <= k < es.len() && is_connect_of(es[k], id),
{
    if event_outputs(room_after(es), EventV::Disconnected(id)).len() > 0 {
        if lookup(room_after(es), id) is Some {
            lemma_member_only_after_connect(es, id);
        }
    }
}

/// Law: the record the room addresses to a freshly connected member is
/// the room-contents notice, and nothing else in that batch goes to it;
/// the notice begins with `* The room contains: `.
pub proof fn lemma_connect_greets_with_contents(ms: MemberMap, id: u64, name: Seq<u8>)
    ensures
        ({
            let outs = event_outputs(ms, EventV::Connected(id, name));
            let ms2 = spec_insert(ms, id, name);
            &&& outs.len() >= 1
            &&& outs.last() == (id, contains_notice(names_of(except(ms2, id))))
            &&& outs.last().1.subrange(0, 21) == seq![
                42u8, 32u8, 84u8, 104u8, 101u8, 32u8, 114u8, 111u8, 111u8, 109u8, 32u8, 99u8,
                111u8, 110u8, 116u8, 97u8, 105u8, 110u8, 115u8, 58u8, 32u8,
            ]
            &&& forall|k: int| 0 <= k < outs.len() - 1 ==> outs[k].0 != id
        }),
{
    let outs = event_outputs(ms, EventV::Connected(id, name));
    let ms2 = spec_insert(ms, id, name);
    let fan = sendall(except(ms2, id), enter_notice(name));
    assert(outs == fan + seq![(id, contains_notice(names_of(except(ms2, id))))]);
    assert(outs.last() == (id, contains_notice(names_of(except(ms2, id)))));
    assert(outs.last().1.subrange(0, 21) =~= seq![
        42u8, 32u8, 84u8, 104u8, 101u8, 32u8, 114u8, 111u8, 111u8, 109u8, 32u8, 99u8, 111u8,
        110u8, 116u8, 97u8, 105u8, 110u8, 115u8, 58u8, 32u8,
    ]);
    assert forall|k: int| 0 <= k < outs.len() - 1 implies outs[k].0 != id by {
        assert(outs[k] == fan[k]);
        assert(fan[k] == (except(ms2, id)[k].0, enter_notice(name)));
        lemma_except_entry(ms2, id, k);
    }
}

} // verus!
