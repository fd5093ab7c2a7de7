//! The connection table: live connections under small, stable identifiers.
//!
//! A token is handed out when a connection is inserted and stays with it until
//! the connection is removed; only then may it be handed out again. The slots
//! are those of mio's slab, which is kept behind the few contracts below; the
//! table adds what the slab lacks: it grows when it is full, and it answers
//! for every token instead of failing on a stray one.

use crate::connection::{Connection, StateView};
use vstd::prelude::*;

verus! {

/// The token of the listening socket. No connection is ever given it.
pub const LISTENER: usize = 0;

/// The lowest token that a connection can have.
pub const FIRST: usize = 1;

/// The count of slots that a new table has.
pub const INITIAL_SLOTS: usize = 1024;

/// `mio::util::Slab` holding connections. Verus is told nothing of what is
/// inside: the three names below stand for it.
#[verifier::external_body]
pub struct Slots {
    slab: mio::util::Slab<Connection>,
}

/// The connections that a slab holds, each under its token.
pub uninterp spec fn slab_entries(slots: Slots) -> Map<usize, Connection>;

/// The count of slots that a slab has, filled or not.
pub uninterp spec fn slab_slots(slots: Slots) -> nat;

/// The token of a slab's first slot.
pub uninterp spec fn slab_first(slots: Slots) -> nat;

/// Every slot of the slab is filled.
pub open spec fn slab_full(slots: Slots) -> bool {
    forall|t: usize|
        slab_first(slots) <= t < slab_first(slots) + slab_slots(slots) ==> #[trigger] slab_entries(
            slots,
        ).contains_key(t)
}

/// `Slab::new_starting_at`: a slab of `capacity` empty slots, whose tokens
/// begin at `first`. The bounds keep the slot count and the highest token
/// within `usize`, which the slab computes without a check.
#[verifier::external_body]
fn slab_new(first: usize, capacity: usize) -> (slots: Slots)
    requires
        first + capacity <= usize::MAX,
        capacity < usize::MAX,
    ensures
        forall|t: usize| !slab_entries(slots).contains_key(t),
        slab_slots(slots) == capacity,
        slab_first(slots) == first,
{
    Slots { slab: mio::util::Slab::new_starting_at(mio::Token(first), capacity) }
}

/// `Slab::insert_with`: puts a new connection into a vacant slot and returns
/// the slot's token, which the connection is made with. Which vacant slot is
/// taken is the slab's affair. Nothing is returned, and nothing changes, only
/// if no slot is vacant. The slab finds a vacant slot through a list that
/// `slab_remove` keeps intact by its precondition.
#[verifier::external_body]
fn slab_insert(slots: &mut Slots) -> (token: Option<usize>)
    ensures
        slab_slots(*final(slots)) == slab_slots(*old(slots)),
        slab_first(*final(slots)) == slab_first(*old(slots)),
        token is None <==> slab_full(*old(slots)),
        token is None ==> slab_entries(*final(slots)) == slab_entries(*old(slots)),
        token matches Some(t) ==> {
            &&& slab_first(*old(slots)) <= t < slab_first(*old(slots)) + slab_slots(*old(slots))
            &&& !slab_entries(*old(slots)).contains_key(t)
            &&& slab_entries(*final(slots)).dom() == slab_entries(*old(slots)).dom().insert(t)
            &&& forall|u: usize| #[trigger]
                slab_entries(*old(slots)).contains_key(u) ==> slab_entries(*final(slots))[u]
                    == slab_entries(*old(slots))[u]
            &&& slab_entries(*final(slots))[t].token == t
            &&& slab_entries(*final(slots))[t].state@ == StateView::Reading(Seq::empty())
        },
{
    match slots.slab.insert_with(|token| Connection::new(token.as_usize())) {
        Some(token) => Some(token.as_usize()),
        None => None,
    }
}

/// `Slab::get`: the connection under `token`, if the slot is filled. The
/// token must not lie behind the last slot: there the slab may index out of
/// bounds.
#[verifier::external_body]
fn slab_get(slots: &Slots, token: usize) -> (found: Option<&Connection>)
    requires
        token < slab_first(*slots) + slab_slots(*slots),
    ensures
        found is Some <==> slab_entries(*slots).contains_key(token),
        found matches Some(c) ==> *c == slab_entries(*slots)[token],
{
    slots.slab.get(mio::Token(token))
}

/// `Slab::get_mut`: the connection under `token`, to change in place, if the
/// slot is filled. The token must not lie behind the last slot, as for
/// `slab_get`.
#[verifier::external_body]
fn slab_get_mut(slots: &mut Slots, token: usize) -> (found: Option<&mut Connection>)
    requires
        token < slab_first(*old(slots)) + slab_slots(*old(slots)),
    ensures
        slab_slots(*final(slots)) == slab_slots(*old(slots)),
        slab_first(*final(slots)) == slab_first(*old(slots)),
        match found {
            Some(c) => {
                &&& slab_entries(*old(slots)).contains_key(token)
                &&& *c == slab_entries(*old(slots))[token]
                &&& slab_entries(*final(slots)) == slab_entries(*old(slots)).insert(
                    token,
                    *final(c),
                )
            },
            None => {
                &&& !slab_entries(*old(slots)).contains_key(token)
                &&& slab_entries(*final(slots)) == slab_entries(*old(slots))
            },
        },
{
    slots.slab.get_mut(mio::Token(token))
}

/// `Slab::remove`: takes the connection under `token` out and frees its
/// slot. The slot must be filled: on a vacant one the slab would break its
/// list of vacant slots, and a later insertion could fail.
#[verifier::external_body]
fn slab_remove(slots: &mut Slots, token: usize) -> (gone: Option<Connection>)
    requires
        slab_entries(*old(slots)).contains_key(token),
    ensures
        slab_slots(*final(slots)) == slab_slots(*old(slots)),
        slab_first(*final(slots)) == slab_first(*old(slots)),
        gone == Some(slab_entries(*old(slots))[token]),
        slab_entries(*final(slots)) == slab_entries(*old(slots)).remove(token),
{
    slots.slab.remove(mio::Token(token))
}

/// `Slab::grow`: adds `more` vacant slots behind the last one. The bounds
/// keep the slot count and the highest token within `usize`.
#[verifier::external_body]
fn slab_grow(slots: &mut Slots, more: usize)
    requires
        slab_first(*old(slots)) + slab_slots(*old(slots)) + more <= usize::MAX,
        slab_slots(*old(slots)) + more < usize::MAX,
    ensures
        slab_slots(*final(slots)) == slab_slots(*old(slots)) + more,
        slab_first(*final(slots)) == slab_first(*old(slots)),
        slab_entries(*final(slots)) == slab_entries(*old(slots)),
{
    slots.slab.grow(more)
}

/// The table of live connections.
pub struct Table {
    slots: Slots,
    size: usize,
}

impl View for Table {
    type V = Map<usize, StateView>;

    /// The state of each live connection, under its token.
    closed spec fn view(&self) -> Map<usize, StateView> {
        Map::new(
            |t: usize| slab_entries(self.slots).contains_key(t),
            |t: usize| slab_entries(self.slots)[t].state@,
        )
    }
}

impl Table {
    /// The table is sound: its count of slots is the slab's, every token
    /// lies in a slot and is known to its connection, and no connection has
    /// flushed more than its response holds.
    pub closed spec fn wf(&self) -> bool {
        &&& slab_first(self.slots) == FIRST
        &&& slab_slots(self.slots) == self.size
        &&& FIRST + self.size <= usize::MAX
        &&& forall|t: usize| #[trigger]
            slab_entries(self.slots).contains_key(t) ==> {
                &&& FIRST <= t < FIRST + self.size
                &&& slab_entries(self.slots)[t].token == t
                &&& slab_entries(self.slots)[t].state@.wf()
            }
    }

    /// In a sound table no connection has the listener's token, and every
    /// state is well formed.
    pub proof fn lemma_wf(&self)
        requires
            self.wf(),
        ensures
            !self@.contains_key(LISTENER),
            forall|t: usize| #[trigger] self@.contains_key(t) ==> self@[t].wf(),
    {
    }

    /// A table without connections.
    pub fn new() -> (table: Table)
        ensures
            table.wf(),
            table@ == Map::<usize, StateView>::empty(),
    {
        let table = Table { slots: slab_new(FIRST, INITIAL_SLOTS), size: INITIAL_SLOTS };
        assert(table@ =~= Map::<usize, StateView>::empty());
        table
    }

    /// Inserts a new connection, which reads and has received nothing, and
    /// returns its token: one that no live connection has. The other
    /// connections stay as they are. The table grows when it is full; only
    /// when every token from `FIRST` up to the greatest `usize` is taken
    /// does it return nothing.
    pub fn insert(&mut self) -> (token: Option<usize>)
        requires
            old(self).wf(),
        ensures
            final(self).wf(),
            match token {
                Some(t) => {
                    &&& t != LISTENER
                    &&& !old(self)@.contains_key(t)
                    &&& final(self)@ == old(self)@.insert(t, StateView::Reading(Seq::empty()))
                },
                None => {
                    &&& final(self)@ == old(self)@
                    &&& forall|t: usize| FIRST <= t < usize::MAX ==> old(self)@.contains_key(t)
                },
            },
    {
        let ghost before = self@;
        let first = slab_insert(&mut self.slots);
        let token = match first {
            Some(t) => Some(t),
            None => {
                let room: usize = usize::MAX - FIRST - self.size;
                if room == 0 {
                    assert(self@ =~= before);
                    assert forall|t: usize| FIRST <= t < usize::MAX implies before.contains_key(
                        t,
                    ) by {
                        assert(slab_entries(self.slots).contains_key(t));
                    }
                    return None;
                }
                let more: usize = if self.size > room {
                    room
                } else if self.size == 0 {
                    1
                } else {
                    self.size
                };
                slab_grow(&mut self.slots, more);
                let ghost vacant: usize = (FIRST + self.size) as usize;
                self.size = self.size + more;
                assert(!slab_entries(self.slots).contains_key(vacant));
                slab_insert(&mut self.slots)
            },
        };
        match token {
            Some(t) => {
                assert(self@ =~= before.insert(t, StateView::Reading(Seq::empty())));
                Some(t)
            },
            None => {
                assert(false);
                None
            },
        }
    }

    /// The connection under `token`, if there is one.
    pub fn get(&self, token: usize) -> (found: Option<&Connection>)
        requires
            self.wf(),
        ensures
            found is Some <==> self@.contains_key(token),
            found matches Some(c) ==> c.token == token && c.state@ == self@[token],
    {
        if token < FIRST || token - FIRST >= self.size {
            return None;
        }
        slab_get(&self.slots, token)
    }

    /// The connection under `token`, if there is one, to be changed in place.
    /// The table then holds the connection as the caller left it, and stays
    /// sound if the caller has kept the token and a well-formed state.
    pub fn get_mut(&mut self, token: usize) -> (found: Option<&mut Connection>)
        requires
            old(self).wf(),
        ensures
            match found {
                Some(c) => {
                    &&& old(self)@.contains_key(token)
                    &&& c.token == token
                    &&& c.state@ == old(self)@[token]
                    &&& c.state@.wf()
                    &&& final(self)@ == old(self)@.insert(token, final(c).state@)
                    &&& final(c).token == token && final(c).state@.wf() ==> final(self).wf()
                },
                None => {
                    &&& !old(self)@.contains_key(token)
                    &&& final(self)@ == old(self)@
                    &&& final(self).wf()
                },
            },
    {
        if token < FIRST || token - FIRST >= self.size {
            return None;
        }
        slab_get_mut(&mut self.slots, token)
    }

    /// Takes the connection under `token` out of the table, if there is one,
    /// and frees the token. The other connections stay as they are.
    pub fn remove(&mut self, token: usize) -> (gone: Option<Connection>)
        requires
            old(self).wf(),
        ensures
            final(self).wf(),
            final(self)@ == old(self)@.remove(token),
            gone is Some <==> old(self)@.contains_key(token),
            gone matches Some(c) ==> c.token == token && c.state@ == old(self)@[token],
    {
        let live = match self.get(token) {
            Some(_) => true,
            None => false,
        };
        if live {
            let gone = slab_remove(&mut self.slots, token);
            assert(self@ =~= old(self)@.remove(token));
            gone
        } else {
            assert(self@ =~= old(self)@.remove(token));
            None
        }
    }
}

} // verus!
