//! The registered-user roster: registration, login, logout and the
//! per-client first-time-setup flag. Names and passwords travel as
//! fixed-width byte strings.

use vstd::prelude::*;
use crate::identity::{ClientID, CLIENT_ID_CAPACITY};
use crate::table::{IdSet, Table};
use crate::text::{
    bound_bytes_range, bounded_eq, bounded_of_bytes, drop_ws_back, first_byte_from, skip_ws_from,
    BoundedString,
};

verus! {

/// Why a login attempt was refused.
#[derive(Copy, Clone, Debug, PartialEq, Eq, Structural)]
pub enum UserBaseError {
    AlreadyLoggedIn,
    UnknownUsername,
    WrongPassword,
}

/// The user roster: credentials by client id, who is logged in, and who
/// still awaits first-time setup. Client ids are handed out in order,
/// starting at 1 (0 is reserved for the server).
pub struct UserBase {
    users: Table<(BoundedString, BoundedString)>,
    first_time_setup_pending: IdSet,
    logged_in: IdSet,
    next_avail_cid: ClientID,
}

impl UserBase {
    pub closed spec fn users_map(self) -> Map<u64, (BoundedString, BoundedString)> {
        self.users.as_map()
    }

    pub closed spec fn pending_set(self) -> Set<u64> {
        self.first_time_setup_pending.set_view()
    }

    pub closed spec fn logged_in_set(self) -> Set<u64> {
        self.logged_in.set_view()
    }

    pub closed spec fn spec_next_cid(self) -> ClientID {
        self.next_avail_cid
    }

    /// Some registered user carries this name.
    pub open spec fn name_taken(self, name: Seq<u8>) -> bool {
        exists|c: u64| #[trigger] self.users_map().dom().contains(c) && self.users_map()[c].0@ == name
    }

    /// Roster invariant: usernames are unique, and every issued id is below
    /// the next free one (which starts at 1).
    pub open spec fn wf(self) -> bool {
        &&& forall|c1: u64, c2: u64|
            #[trigger] self.users_map().dom().contains(c1) && #[trigger] self.users_map().dom().contains(c2)
                && c1 != c2 ==> self.users_map()[c1].0@ != self.users_map()[c2].0@
        &&& forall|c: u64|
            #[trigger] self.users_map().dom().contains(c) ==> 1 <= c < self.spec_next_cid() as u64
        &&& self.spec_next_cid() >= 1
    }

    pub fn new() -> (r: UserBase)
        ensures
            r.wf(),
            r.users_map() == Map::<u64, (BoundedString, BoundedString)>::empty(),
            r.logged_in_set() == Set::<u64>::empty(),
            r.pending_set() == Set::<u64>::empty(),
            r.spec_next_cid() == 1,
    {
        let r = UserBase {
            users: Table::new(),
            first_time_setup_pending: IdSet::new(),
            logged_in: IdSet::new(),
            next_avail_cid: 1,
        };
        proof {
            assert(r.logged_in_set() =~= Set::<u64>::empty());
            assert(r.pending_set() =~= Set::<u64>::empty());
        }
        r
    }

    /// The id of the user carrying `name`, if any.
    fn find_cid_by_name(&self, name: &BoundedString) -> (r: Option<u64>)
        requires
            self.wf(),
        ensures
            match r {
                Some(c) => self.users_map().dom().contains(c) && self.users_map()[c].0@ == name@,
                None => !self.name_taken(name@),
            },
    {
        self.users.note_keys_distinct();
        let n = self.users.len();
        let mut i: usize = 0;
        while i < n
            invariant
                self.wf(),
                crate::table::distinct_keys(self.users.seq_view()),
                n == self.users.seq_view().len(),
                i <= n,
                forall|j: int|
                    0 <= j < i ==> (#[trigger] self.users.seq_view()[j]).1.0@ != name@,
            decreases n - i,
        {
            let entry = self.users.entry_at(i);
            if bounded_eq(&entry.1.0, name) {
                return Some(entry.0);
            }
            i = i + 1;
        }
        proof {
            crate::table::lemma_map_of_seq_dom(self.users.seq_view());
            assert forall|c: u64|
                #[trigger] self.users_map().dom().contains(c) implies self.users_map()[c].0@
                != name@ by {
                let j = choose|j: int|
                    0 <= j < self.users.seq_view().len() && (#[trigger] self.users.seq_view()[j]).0
                        == c;
                crate::table::lemma_map_of_seq_get(self.users.seq_view(), j);
            }
        }
        None
    }

    /// Register a new user. Succeeds exactly when the name is free and an
    /// id can still be issued; the new user starts logged out and pending
    /// first-time setup.
    pub fn register(&mut self, username: BoundedString, password: BoundedString) -> (r: bool)
        requires
            old(self).wf(),
        ensures
            final(self).wf(),
            r == (!old(self).name_taken(username@) && old(self).spec_next_cid()
                < CLIENT_ID_CAPACITY),
            !r ==> *final(self) == *old(self),
            r ==> {
                &&& final(self).users_map() == old(self).users_map().insert(
                    old(self).spec_next_cid() as u64,
                    (username, password),
                )
                &&& final(self).spec_next_cid() == old(self).spec_next_cid() + 1
                &&& final(self).pending_set() == old(self).pending_set().insert(
                    old(self).spec_next_cid() as u64,
                )
                &&& final(self).logged_in_set() == old(self).logged_in_set()
            },
    {
        if self.next_avail_cid >= CLIENT_ID_CAPACITY {
            match self.find_cid_by_name(&username) {
                Some(_) => false,
                None => false,
            }
        } else {
            match self.find_cid_by_name(&username) {
                Some(_) => false,
                None => {
                    let cid = self.next_avail_cid;
                    self.next_avail_cid = cid + 1;
                    self.users.insert(cid as u64, (username, password));
                    self.first_time_setup_pending.insert(cid as u64);
                    proof {
                        let pre = *old(self);
                        let post = *self;
                        assert forall|c1: u64, c2: u64|
                            #[trigger] post.users_map().dom().contains(c1)
                                && #[trigger] post.users_map().dom().contains(c2) && c1
                                != c2 implies post.users_map()[c1].0@ != post.users_map()[c2].0@ by {
                            if c1 != cid as u64 && c2 != cid as u64 {
                                assert(pre.users_map().dom().contains(c1));
                                assert(pre.users_map().dom().contains(c2));
                            } else if c1 == cid as u64 {
                                assert(pre.users_map().dom().contains(c2));
                            } else {
                                assert(pre.users_map().dom().contains(c1));
                            }
                        }
                        assert forall|c: u64|
                            #[trigger] post.users_map().dom().contains(c) implies 1 <= c
                            < post.spec_next_cid() as u64 by {
                            if c != cid as u64 {
                                assert(pre.users_map().dom().contains(c));
                            }
                        }
                        assert(post.pending_set() =~= pre.pending_set().insert(cid as u64));
                    }
                    true
                },
            }
        }
    }

    pub fn is_logged_in(&self, cid: ClientID) -> (r: bool)
        ensures
            r == self.logged_in_set().contains(cid as u64),
    {
        self.logged_in.contains(cid as u64)
    }

    /// Mark `cid`'s first-time setup as done.
    pub fn set_client_setup_true(&mut self, cid: ClientID)
        requires
            old(self).wf(),
        ensures
            final(self).wf(),
            final(self).pending_set() == old(self).pending_set().remove(cid as u64),
            final(self).users_map() == old(self).users_map(),
            final(self).logged_in_set() == old(self).logged_in_set(),
            final(self).spec_next_cid() == old(self).spec_next_cid(),
    {
        self.first_time_setup_pending.remove(cid as u64);
        proof {
            assert(self.users_map() == old(self).users_map());
            assert(self.spec_next_cid() == old(self).spec_next_cid());
            assert forall|c1: u64, c2: u64|
                #[trigger] self.users_map().dom().contains(c1)
                    && #[trigger] self.users_map().dom().contains(c2) && c1 != c2 implies
                self.users_map()[c1].0@ != self.users_map()[c2].0@ by {
                assert(old(self).users_map().dom().contains(c1));
                assert(old(self).users_map().dom().contains(c2));
            }
            assert forall|c: u64| #[trigger] self.users_map().dom().contains(c) implies 1 <= c
                < self.spec_next_cid() as u64 by {
                assert(old(self).users_map().dom().contains(c));
            }
        }
    }

    pub fn client_is_setup(&self, cid: ClientID) -> (r: bool)
        ensures
            r == !self.pending_set().contains(cid as u64),
    {
        !self.first_time_setup_pending.contains(cid as u64)
    }

    /// Forget every live session; used right after the roster is loaded
    /// from storage, since no client can still be connected.
    pub fn log_everyone_out(&mut self)
        requires
            old(self).wf(),
        ensures
            final(self).wf(),
            final(self).logged_in_set() == Set::<u64>::empty(),
            final(self).users_map() == old(self).users_map(),
            final(self).pending_set() == old(self).pending_set(),
            final(self).spec_next_cid() == old(self).spec_next_cid(),
    {
        let _ = self.logged_in.drain();
        proof {
            assert(self.users_map() == old(self).users_map());
            assert(self.spec_next_cid() == old(self).spec_next_cid());
            assert forall|c1: u64, c2: u64|
                #[trigger] self.users_map().dom().contains(c1)
                    && #[trigger] self.users_map().dom().contains(c2) && c1 != c2 implies
                self.users_map()[c1].0@ != self.users_map()[c2].0@ by {
                assert(old(self).users_map().dom().contains(c1));
                assert(old(self).users_map().dom().contains(c2));
            }
            assert forall|c: u64| #[trigger] self.users_map().dom().contains(c) implies 1 <= c
                < self.spec_next_cid() as u64 by {
                assert(old(self).users_map().dom().contains(c));
            }
        }
    }

    /// End `cid`'s session.
    pub fn logout(&mut self, cid: ClientID)
        requires
            old(self).wf(),
        ensures
            final(self).wf(),
            final(self).logged_in_set() == old(self).logged_in_set().remove(cid as u64),
            final(self).users_map() == old(self).users_map(),
            final(self).pending_set() == old(self).pending_set(),
            final(self).spec_next_cid() == old(self).spec_next_cid(),
    {
        self.logged_in.remove(cid as u64);
        proof {
            assert(self.users_map() == old(self).users_map());
            assert(self.spec_next_cid() == old(self).spec_next_cid());
            assert forall|c1: u64, c2: u64|
                #[trigger] self.users_map().dom().contains(c1)
                    && #[trigger] self.users_map().dom().contains(c2) && c1 != c2 implies
                self.users_map()[c1].0@ != self.users_map()[c2].0@ by {
                assert(old(self).users_map().dom().contains(c1));
                assert(old(self).users_map().dom().contains(c2));
            }
            assert forall|c: u64| #[trigger] self.users_map().dom().contains(c) implies 1 <= c
                < self.spec_next_cid() as u64 by {
                assert(old(self).users_map().dom().contains(c));
            }
        }
    }

    /// Attempt a login. Succeeds exactly when the name is registered, its
    /// holder is not already logged in, and the password matches; each
    /// refusal names its own cause.
    pub fn login(&mut self, username: BoundedString, password: BoundedString) -> (r: Result<
        ClientID,
        UserBaseError,
    >)
        requires
            old(self).wf(),
        ensures
            final(self).wf(),
            final(self).users_map() == old(self).users_map(),
            final(self).pending_set() == old(self).pending_set(),
            final(self).spec_next_cid() == old(self).spec_next_cid(),
            match r {
                Ok(cid) => {
                    &&& old(self).users_map().dom().contains(cid as u64)
                    &&& old(self).users_map()[cid as u64].0@ == username@
                    &&& old(self).users_map()[cid as u64].1@ == password@
                    &&& !old(self).logged_in_set().contains(cid as u64)
                    &&& final(self).logged_in_set() == old(self).logged_in_set().insert(
                        cid as u64,
                    )
                },
                Err(e) => {
                    &&& *final(self) == *old(self)
                    &&& e == UserBaseError::UnknownUsername <==> !old(self).name_taken(username@)
                    &&& e == UserBaseError::AlreadyLoggedIn ==> exists|c: u64|
                        #[trigger] old(self).users_map().dom().contains(c) && old(
                            self,
                        ).users_map()[c].0@ == username@ && old(self).logged_in_set().contains(c)
                    &&& e == UserBaseError::WrongPassword ==> exists|c: u64|
                        #[trigger] old(self).users_map().dom().contains(c) && old(
                            self,
                        ).users_map()[c].0@ == username@ && !old(self).logged_in_set().contains(c)
                            && old(self).users_map()[c].1@ != password@
                },
            },
            r is Ok <==> exists|c: u64|
                #[trigger] old(self).users_map().dom().contains(c) && old(self).users_map()[c].0@
                    == username@ && !old(self).logged_in_set().contains(c) && old(
                    self,
                ).users_map()[c].1@ == password@,
    {
        let found = self.find_cid_by_name(&username);
        match found {
            Some(c) => {
                if self.logged_in.contains(c) {
                    proof {
                        assert(old(self).logged_in_set().contains(c));
                        assert forall|c2: u64|
                            #[trigger] old(self).users_map().dom().contains(c2) && old(
                                self,
                            ).users_map()[c2].0@ == username@ implies c2 == c by {}
                    }
                    Err(UserBaseError::AlreadyLoggedIn)
                } else {
                    let entry = self.users.get(c).unwrap();
                    if bounded_eq(&entry.1, &password) {
                        self.logged_in.insert(c);
                        proof {
                            assert(c < CLIENT_ID_CAPACITY as u64 || c < 0x1_0000u64) by {
                                assert(old(self).users_map().dom().contains(c));
                            }
                            assert(self.logged_in_set() =~= old(self).logged_in_set().insert(c));
                        }
                        Ok(c as ClientID)
                    } else {
                        proof {
                            assert forall|c2: u64|
                                #[trigger] old(self).users_map().dom().contains(c2) && old(
                                    self,
                                ).users_map()[c2].0@ == username@ implies c2 == c by {}
                        }
                        Err(UserBaseError::WrongPassword)
                    }
                }
            },
            None => Err(UserBaseError::UnknownUsername),
        }
    }

    /// Parse one registration file: two lines, username then password, each
    /// trimmed of surrounding whitespace and bounded to the wire width.
    /// Anything but exactly two lines is rejected.
    pub fn parse_registration(contents: &[u8]) -> (r: Option<(BoundedString, BoundedString)>)
        ensures
            ({
                let bs = contents@;
                let nl = first_byte_from(bs, 10, 0);
                if nl < bs.len() && first_byte_from(bs, 10, nl + 1) == bs.len() {
                    r is Some && {
                        let lo1 = skip_ws_from(bs, 0, nl);
                        let hi1 = drop_ws_back(bs, lo1, nl);
                        let lo2 = skip_ws_from(bs, nl + 1, bs.len() as int);
                        let hi2 = drop_ws_back(bs, lo2, bs.len() as int);
                        &&& r.unwrap().0@ == bounded_of_bytes(bs.subrange(lo1, hi1))
                        &&& r.unwrap().1@ == bounded_of_bytes(bs.subrange(lo2, hi2))
                    }
                } else {
                    r is None
                }
            }),
    {
        let len = contents.len();
        let mut nl: usize = 0;
        while nl < len && contents[nl] != 10
            invariant
                nl <= len,
                len == contents@.len(),
                first_byte_from(contents@, 10, 0) == first_byte_from(contents@, 10, nl as int),
            decreases len - nl,
        {
            nl = nl + 1;
        }
        proof {
            assert(first_byte_from(contents@, 10, 0) == nl);
        }
        if nl >= len {
            return None;
        }
        let mut second: usize = nl + 1;
        while second < len && contents[second] != 10
            invariant
                nl < second <= len,
                len == contents@.len(),
                first_byte_from(contents@, 10, nl + 1) == first_byte_from(
                    contents@,
                    10,
                    second as int,
                ),
            decreases len - second,
        {
            second = second + 1;
        }
        proof {
            assert(first_byte_from(contents@, 10, nl + 1) == second);
        }
        if second < len {
            return None;
        }
        let lo1 = Self::skip_ws(contents, 0, nl);
        let hi1 = Self::trim_back(contents, lo1, nl);
        let lo2 = Self::skip_ws(contents, nl + 1, len);
        let hi2 = Self::trim_back(contents, lo2, len);
        let username = bound_bytes_range(contents, lo1, hi1);
        let password = bound_bytes_range(contents, lo2, hi2);
        Some((username, password))
    }

    /// First non-whitespace index in `[i, end)`.
    fn skip_ws(bs: &[u8], i: usize, end: usize) -> (r: usize)
        requires
            i <= end <= bs@.len(),
        ensures
            i <= r <= end,
            r == skip_ws_from(bs@, i as int, end as int),
    {
        let mut lo = i;
        while lo < end && (bs[lo] == 32 || bs[lo] == 9 || bs[lo] == 10 || bs[lo] == 13)
            invariant
                i <= lo <= end <= bs@.len(),
                skip_ws_from(bs@, i as int, end as int) == skip_ws_from(bs@, lo as int, end as int),
            decreases end - lo,
        {
            lo = lo + 1;
        }
        lo
    }

    /// End of `[lo, hi)` once trailing whitespace is dropped.
    fn trim_back(bs: &[u8], lo: usize, hi: usize) -> (r: usize)
        requires
            lo <= hi <= bs@.len(),
        ensures
            lo <= r <= hi,
            r == drop_ws_back(bs@, lo as int, hi as int),
    {
        let mut h = hi;
        while h > lo && (bs[h - 1] == 32 || bs[h - 1] == 9 || bs[h - 1] == 10 || bs[h - 1] == 13)
            invariant
                lo <= h <= hi <= bs@.len(),
                drop_ws_back(bs@, lo as int, hi as int) == drop_ws_back(bs@, lo as int, h as int),
            decreases h - lo,
        {
            h = h - 1;
        }
        h
    }

    /// Parse a registration file and, when it is well formed, register its
    /// user; reports whether a new user was added.
    pub fn consume_registration_entry(&mut self, contents: &[u8]) -> (r: bool)
        requires
            old(self).wf(),
        ensures
            final(self).wf(),
            !r ==> *final(self) == *old(self),
            r ==> final(self).spec_next_cid() == old(self).spec_next_cid() + 1,
    {
        match Self::parse_registration(contents) {
            Some((username, password)) => self.register(username, password),
            None => false,
        }
    }
}

} // verus!
