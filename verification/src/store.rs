//! Sessions and the session store.
//!
//! The store holds every recorded session and enforces the lifecycle rules:
//! ids are unique, and at most one session is open (has no end) at a time.

use vstd::prelude::*;
use crate::time::{Timestamp, datetime_text_valid, parsed_stamp, with_offset};

verus! {

/// The error kinds an operation can fail with.
#[derive(Clone, Copy, PartialEq, Eq, Structural, Debug)]
pub enum TrackError {
    /// A session is already open.
    Conflict,
    /// No session with the given id, or no open session to stop.
    NotFound,
    /// Malformed timestamp text, an unrepresentable local time, or an end
    /// not after the start.
    Validation,
    /// The store cannot take another row: its id space is spent.
    Storage,
}

/// One tracked interval of work.
#[derive(Debug)]
pub struct Session {
    pub id: i64,
    pub topic: String,
    pub start: Timestamp,
    pub end: Option<Timestamp>,
}

/// The mathematical value of a session.
#[verifier::ext_equal]
pub ghost struct SessionV {
    pub id: int,
    pub topic: Seq<char>,
    pub start: Timestamp,
    pub end: Option<Timestamp>,
}

impl View for Session {
    type V = SessionV;

    open spec fn view(&self) -> SessionV {
        SessionV {
            id: self.id as int,
            topic: self.topic@,
            start: self.start,
            end: self.end,
        }
    }
}

impl SessionV {
    pub open spec fn valid(self) -> bool {
        &&& self.start.valid()
        &&& match self.end {
            Some(e) => e.valid(),
            None => true,
        }
    }

    pub open spec fn is_open(self) -> bool {
        self.end is None
    }

    /// Signed length of a closed session, in seconds.
    pub open spec fn duration_seconds(self) -> int
        recommends
            self.end is Some,
    {
        self.end->Some_0.instant() - self.start.instant()
    }
}

impl Session {
    /// An identical session under a fresh allocation.
    pub fn duplicate(&self) -> (r: Session)
        ensures
            r@ == self@,
    {
        let r = Session {
            id: self.id,
            topic: self.topic.clone(),
            start: self.start,
            end: self.end,
        };
        assert(r@ =~= self@);
        r
    }

    /// Signed length of a closed session, in seconds.
    pub fn duration_seconds_exec(&self) -> (r: i64)
        requires
            self@.valid(),
            self.end is Some,
        ensures
            r == self@.duration_seconds(),
    {
        proof {
            crate::time::lemma_instant_bounds(self.start);
            crate::time::lemma_instant_bounds(self.end->Some_0);
        }
        match &self.end {
            Some(e) => e.instant_exec() - self.start.instant_exec(),
            None => vstd::pervasive::unreached(),
        }
    }
}

/// Reads `DD.MM.YYYY HH:MM` text as a point in the local time zone.
pub fn parse_local(text: &Vec<u8>) -> (r: Result<Timestamp, TrackError>)
    ensures
        r is Err ==> r == Err::<Timestamp, TrackError>(TrackError::Validation),
        !datetime_text_valid(text@) ==> r is Err,
        r matches Ok(t) ==> datetime_text_valid(text@) && t.valid() && exists|o: i32|
            -86400 < o < 86400 && t == with_offset(parsed_stamp(text@), o),
{
    let p = match crate::time::parse_datetime(text) {
        None => { return Err(TrackError::Validation); },
        Some(t) => t,
    };
    let off = match crate::clock::local_offset(p.date, p.hour, p.minute) {
        None => { return Err(TrackError::Validation); },
        Some(o) => o,
    };
    Ok(crate::time::with_offset_exec(p, off))
}

/// The values of a sequence of sessions.
pub open spec fn views(ss: Seq<Session>) -> Seq<SessionV> {
    ss.map_values(|s: Session| s@)
}

/// What a collection of recorded sessions must satisfy to become a store:
/// valid fields, ids unique and within range, at most one open session.
pub open spec fn sessions_admissible(v: Seq<Session>) -> bool {
    &&& forall|i: int| 0 <= i < v.len() ==> (#[trigger] v[i])@.valid()
    &&& forall|i: int| 0 <= i < v.len() ==> 0 <= (#[trigger] v[i])@.id < i64::MAX - 1
    &&& forall|i: int, j: int|
        0 <= i < v.len() && 0 <= j < v.len() && i != j ==> (#[trigger] v[i])@.id != (
        #[trigger] v[j])@.id
    &&& forall|i: int, j: int|
        0 <= i < v.len() && 0 <= j < v.len() && (#[trigger] v[i])@.is_open() && (
        #[trigger] v[j])@.is_open() ==> i == j
}

/// Order between two sessions by start instant, ascending or descending.
pub open spec fn start_le(a: SessionV, b: SessionV, asc: bool) -> bool {
    if asc {
        a.start.instant() <= b.start.instant()
    } else {
        a.start.instant() >= b.start.instant()
    }
}

/// The sequence is ordered by start instant in the given direction.
pub open spec fn sorted_by_start(ss: Seq<SessionV>, asc: bool) -> bool {
    forall|i: int, j: int| 0 <= i < j < ss.len() ==> start_le(ss[i], ss[j], asc)
}

/// The values of the closed sessions, in order.
pub open spec fn closed_views(ss: Seq<Session>) -> Seq<SessionV>
    decreases ss.len(),
{
    if ss.len() == 0 {
        Seq::empty()
    } else {
        closed_views(ss.drop_last()) + (if ss.last()@.end is Some {
            seq![ss.last()@]
        } else {
            Seq::empty()
        })
    }
}

/// Every value in `closed_views` is the value of some session of the input,
/// and is closed.
pub proof fn lemma_closed_views_from(ss: Seq<Session>, x: SessionV)
    requires
        closed_views(ss).contains(x),
    ensures
        x.end is Some,
        exists|i: int| 0 <= i < ss.len() && (#[trigger] ss[i])@ == x,
    decreases ss.len(),
{
    if ss.len() > 0 {
        if ss.last()@.end is Some && x == ss.last()@ {
            assert(ss[ss.len() - 1]@ == x);
        } else {
            assert(closed_views(ss.drop_last()).contains(x));
            lemma_closed_views_from(ss.drop_last(), x);
            let i = choose|i: int| 0 <= i < ss.drop_last().len() && (#[trigger] ss.drop_last()[i])@ == x;
            assert(ss[i]@ == x);
        }
    }
}

proof fn lemma_views_remove(s: Seq<Session>, i: int)
    requires
        0 <= i < s.len(),
    ensures
        views(s.remove(i)) =~= views(s).remove(i),
{
}

proof fn lemma_views_push(s: Seq<Session>, x: Session)
    ensures
        views(s.push(x)) =~= views(s).push(x@),
{
}

/// Sorts sessions by start instant, ascending when `asc`, else descending.
fn sort_sessions(v: Vec<Session>, asc: bool) -> (r: Vec<Session>)
    requires
        forall|i: int| 0 <= i < v@.len() ==> (#[trigger] v@[i])@.valid(),
    ensures
        r@.len() == v@.len(),
        views(r@).to_multiset() == views(v@).to_multiset(),
        sorted_by_start(views(r@), asc),
        forall|i: int| 0 <= i < r@.len() ==> (#[trigger] r@[i])@.valid(),
{
    broadcast use vstd::seq_lib::group_to_multiset_ensures;
    broadcast use vstd::multiset::group_multiset_axioms;

    let mut rem = v;
    let mut out: Vec<Session> = Vec::new();
    while rem.len() > 0
        invariant
            out@.len() + rem@.len() == v@.len(),
            views(out@).to_multiset().add(views(rem@).to_multiset()) == views(v@).to_multiset(),
            sorted_by_start(views(out@), asc),
            forall|i: int, j: int|
                0 <= i < out@.len() && 0 <= j < rem@.len() ==> start_le(
                    (#[trigger] out@[i])@,
                    (#[trigger] rem@[j])@,
                    asc,
                ),
            forall|i: int| 0 <= i < out@.len() ==> (#[trigger] out@[i])@.valid(),
            forall|i: int| 0 <= i < rem@.len() ==> (#[trigger] rem@[i])@.valid(),
        decreases rem@.len(),
    {
        let mut best: usize = 0;
        let mut bi: usize = 1;
        while bi < rem.len()
            invariant
                best < bi <= rem@.len(),
                rem@.len() > 0,
                forall|i: int| 0 <= i < rem@.len() ==> (#[trigger] rem@[i])@.valid(),
                forall|j: int| 0 <= j < bi ==> start_le(rem@[best as int]@, (#[trigger] rem@[j])@, asc),
            decreases rem@.len() - bi,
        {
            let better = if asc {
                rem[bi].start.instant_exec() < rem[best].start.instant_exec()
            } else {
                rem[bi].start.instant_exec() > rem[best].start.instant_exec()
            };
            if better {
                best = bi;
            }
            bi = bi + 1;
        }
        let ghost pre_rem = rem@;
        let ghost pre_out = out@;
        let ghost rv = views(pre_rem);
        let ghost ov = views(pre_out);
        let ghost xv = rv[best as int];
        let x = rem.remove(best);
        out.push(x);
        proof {
            lemma_views_remove(pre_rem, best as int);
            lemma_views_push(pre_out, x);
            assert(x@ == xv);
            assert(views(rem@) =~= rv.remove(best as int));
            assert(views(out@) =~= ov.push(xv));
            assert(rv.contains(xv));
            rv.to_multiset_ensures();
            assert(rv.to_multiset().count(xv) > 0);
            assert(views(rem@).to_multiset() == rv.to_multiset().remove(xv));
            ov.to_multiset_ensures();
            assert((ov.push(xv)).to_multiset() =~= ov.to_multiset().insert(xv));
            assert(views(out@).to_multiset() == ov.to_multiset().insert(xv));
            assert(views(out@).to_multiset().add(views(rem@).to_multiset()) =~= ov.to_multiset().add(
                rv.to_multiset(),
            ));
            assert forall|i: int, j: int|
                0 <= i < out@.len() && 0 <= j < rem@.len() implies start_le(
                (#[trigger] out@[i])@,
                (#[trigger] rem@[j])@,
                asc,
            ) by {
                assert(rem@[j]@ == if j < best as int {
                    rv[j]
                } else {
                    rv[j + 1]
                });
                if i < ov.len() {
                    assert(out@[i]@ == ov[i]);
                } else {
                    assert(out@[i]@ == xv);
                    assert(start_le(rv[best as int], rv[if j < best as int {
                        j
                    } else {
                        j + 1
                    }], asc));
                }
            }
            assert(sorted_by_start(views(out@), asc)) by {
                assert forall|i: int, j: int| 0 <= i < j < out@.len() implies start_le(
                    views(out@)[i],
                    views(out@)[j],
                    asc,
                ) by {
                    if j < ov.len() {
                        assert(start_le(ov[i], ov[j], asc));
                    } else {
                        assert(views(out@)[j] == xv);
                        assert(start_le(ov[i], xv, asc));
                    }
                }
            }
        }
    }
    out
}

/// What a "latest first" listing of at most `count` sessions out of a pool
/// satisfies: a longest prefix, within `count`, of some ordering of the
/// whole pool by start instant, latest first.
pub open spec fn listing_ok(out: Seq<Session>, pool: Seq<SessionV>, count: int) -> bool {
    &&& out.len() == if count <= pool.len() {
        count
    } else {
        pool.len() as int
    }
    &&& exists|perm: Seq<SessionV>|
        #![auto]
        perm.to_multiset() == pool.to_multiset() && sorted_by_start(perm, false) && views(out)
            == perm.take(out.len() as int)
    &&& forall|i: int| 0 <= i < out.len() ==> (#[trigger] out[i])@.valid()
}

/// The store of all recorded sessions.
pub struct Store {
    pub sessions: Vec<Session>,
    pub next_id: i64,
}

impl Store {
    /// Well-formedness: valid sessions, unique ids below `next_id`, and at
    /// most one open session.
    pub open spec fn wf(self) -> bool {
        &&& forall|i: int|
            0 <= i < self.sessions@.len() ==> (#[trigger] self.sessions@[i])@.valid()
        &&& forall|i: int, j: int|
            0 <= i < self.sessions@.len() && 0 <= j < self.sessions@.len() && i != j
                ==> (#[trigger] self.sessions@[i])@.id != (#[trigger] self.sessions@[j])@.id
        &&& forall|i: int, j: int|
            0 <= i < self.sessions@.len() && 0 <= j < self.sessions@.len()
                && (#[trigger] self.sessions@[i])@.is_open() && (#[trigger] self.sessions@[j])@.is_open()
                ==> i == j
        &&& forall|i: int|
            0 <= i < self.sessions@.len() ==> 0 <= (#[trigger] self.sessions@[i])@.id
                < self.next_id
        &&& 0 < self.next_id < i64::MAX
    }

    /// Whether some session is open.
    pub open spec fn has_open(self) -> bool {
        exists|i: int| 0 <= i < self.sessions@.len() && (#[trigger] self.sessions@[i])@.is_open()
    }

    /// Index of the open session, when one exists.
    pub open spec fn open_idx(self) -> int {
        choose|i: int| 0 <= i < self.sessions@.len() && (#[trigger] self.sessions@[i])@.is_open()
    }

    /// Whether some session carries the id.
    pub open spec fn has_id(self, id: int) -> bool {
        exists|i: int| 0 <= i < self.sessions@.len() && (#[trigger] self.sessions@[i])@.id == id
    }

    /// Index of the session with the id, when one exists.
    pub open spec fn idx_of(self, id: int) -> int {
        choose|i: int| 0 <= i < self.sessions@.len() && (#[trigger] self.sessions@[i])@.id == id
    }

    /// An empty store.
    pub fn new() -> (r: Store)
        ensures
            r.wf(),
            r.sessions@.len() == 0,
            r.next_id == 1,
    {
        Store { sessions: Vec::new(), next_id: 1 }
    }

    pub(crate) fn find_open(&self) -> (r: Option<usize>)
        ensures
            r is Some <==> self.has_open(),
            r matches Some(i) ==> 0 <= i < self.sessions@.len() && self.sessions@[i as int]@.is_open(),
    {
        let mut i: usize = 0;
        while i < self.sessions.len()
            invariant
                i <= self.sessions@.len(),
                forall|j: int| 0 <= j < i ==> !(#[trigger] self.sessions@[j])@.is_open(),
            decreases self.sessions@.len() - i,
        {
            if self.sessions[i].end.is_none() {
                return Some(i);
            }
            i = i + 1;
        }
        None
    }

    fn find_id(&self, id: i64) -> (r: Option<usize>)
        ensures
            r is Some <==> self.has_id(id as int),
            r matches Some(i) ==> 0 <= i < self.sessions@.len() && self.sessions@[i as int]@.id
                == id,
    {
        let mut i: usize = 0;
        while i < self.sessions.len()
            invariant
                i <= self.sessions@.len(),
                forall|j: int| 0 <= j < i ==> (#[trigger] self.sessions@[j])@.id != id,
            decreases self.sessions@.len() - i,
        {
            if self.sessions[i].id == id {
                return Some(i);
            }
            i = i + 1;
        }
        None
    }

    /// Opens a new session at `now`, unless one is already open.
    pub fn start(&mut self, topic: Option<String>, now: Timestamp) -> (r: Result<
        (),
        TrackError,
    >)
        requires
            old(self).wf(),
            now.valid(),
        ensures
            final(self).wf(),
            old(self).has_open() <==> r == Err::<(), TrackError>(TrackError::Conflict),
            !old(self).has_open() && old(self).next_id >= i64::MAX - 1 <==> r == Err::<
                (),
                TrackError,
            >(TrackError::Storage),
            r is Err ==> (r == Err::<(), TrackError>(TrackError::Conflict) || r == Err::<
                (),
                TrackError,
            >(TrackError::Storage)) && *final(self) == *old(self),
            r is Ok ==> final(self).next_id == old(self).next_id + 1
                && final(self).sessions@.len() == old(self).sessions@.len() + 1 && final(self).sessions@.last()@ == (SessionV {
                id: old(self).next_id as int,
                topic: match topic {
                    Some(t) => t@,
                    None => "default"@,
                },
                start: now,
                end: None::<Timestamp>,
            }) && forall|i: int|
                0 <= i < old(self).sessions@.len() ==> final(self).sessions@[i] == old(self).sessions@[i],
    {
        if self.find_open().is_some() {
            return Err(TrackError::Conflict);
        }
        if self.next_id >= i64::MAX - 1 {
            return Err(TrackError::Storage);
        }
        let name = match topic {
            Some(t) => t,
            None => "default".to_string(),
        };
        let s = Session { id: self.next_id, topic: name, start: now, end: None };
        self.sessions.push(s);
        self.next_id = self.next_id + 1;
        proof {
            assert(self.sessions@.last()@ =~= SessionV {
                id: old(self).next_id as int,
                topic: match topic {
                    Some(t) => t@,
                    None => "default"@,
                },
                start: now,
                end: None::<Timestamp>,
            });
        }
        Ok(())
    }

    /// Closes the open session at `now`; fails when none is open.
    pub fn stop(&mut self, now: Timestamp) -> (r: Result<Session, TrackError>)
        requires
            old(self).wf(),
            now.valid(),
        ensures
            final(self).wf(),
            !old(self).has_open() ==> r == Err::<Session, TrackError>(TrackError::NotFound)
                && *final(self) == *old(self),
            old(self).has_open() ==> {
                let k = old(self).open_idx();
                &&& r is Ok
                &&& final(self).next_id == old(self).next_id
                &&& final(self).sessions@.len() == old(self).sessions@.len()
                &&& final(self).sessions@[k]@ == (SessionV {
                    end: Some(now),
                    ..old(self).sessions@[k]@
                })
                &&& r->Ok_0@ == final(self).sessions@[k]@
                &&& forall|i: int|
                    0 <= i < old(self).sessions@.len() && i != k ==> final(self).sessions@[i]
                        == old(self).sessions@[i]
            },
    {
        match self.find_open() {
            None => Err(TrackError::NotFound),
            Some(k) => {
                proof {
                    assert(old(self).sessions@[k as int]@.is_open());
                }
                let closed = Session {
                    id: self.sessions[k].id,
                    topic: self.sessions[k].topic.clone(),
                    start: self.sessions[k].start,
                    end: Some(now),
                };
                let out = closed.duplicate();
                self.sessions.remove(k);
                self.sessions.insert(k, closed);
                proof {
                    let ghost kk = old(self).open_idx();
                    assert(old(self).sessions@[kk]@.is_open());
                    assert(kk == k as int);
                    assert(self.sessions@ =~= old(self).sessions@.update(k as int, closed));
                    assert(self.sessions@[kk]@ =~= SessionV {
                        end: Some(now),
                        ..old(self).sessions@[kk]@
                    });
                }
                Ok(out)
            },
        }
    }

    /// Inserts a closed session; fails when the end is not after the start.
    pub fn add_stamps(&mut self, topic: String, start: Timestamp, end: Timestamp) -> (r: Result<
        (),
        TrackError,
    >)
        requires
            old(self).wf(),
            start.valid(),
            end.valid(),
        ensures
            final(self).wf(),
            end.instant() <= start.instant() <==> r == Err::<(), TrackError>(
                TrackError::Validation,
            ),
            end.instant() > start.instant() && old(self).next_id >= i64::MAX - 1 <==> r
                == Err::<(), TrackError>(TrackError::Storage),
            r is Err ==> (r == Err::<(), TrackError>(TrackError::Validation) || r == Err::<
                (),
                TrackError,
            >(TrackError::Storage)) && *final(self) == *old(self),
            r is Ok ==> final(self).next_id == old(self).next_id + 1 && final(self).sessions@.len() == old(self).sessions@.len() + 1 && final(self).sessions@.last()@ == (SessionV {
                id: old(self).next_id as int,
                topic: topic@,
                start: start,
                end: Some(end),
            }) && forall|i: int|
                0 <= i < old(self).sessions@.len() ==> final(self).sessions@[i] == old(self).sessions@[i],
    {
        proof {
            crate::time::lemma_instant_bounds(start);
            crate::time::lemma_instant_bounds(end);
        }
        if end.instant_exec() <= start.instant_exec() {
            return Err(TrackError::Validation);
        }
        if self.next_id >= i64::MAX - 1 {
            return Err(TrackError::Storage);
        }
        let s = Session { id: self.next_id, topic, start, end: Some(end) };
        let ghost tv = s.topic@;
        self.sessions.push(s);
        self.next_id = self.next_id + 1;
        proof {
            assert(self.sessions@.last()@ =~= SessionV {
                id: old(self).next_id as int,
                topic: tv,
                start: start,
                end: Some(end),
            });
        }
        Ok(())
    }

    /// Inserts a closed session given as `DD.MM.YYYY HH:MM` texts read in
    /// the local zone.
    pub fn add(&mut self, topic: String, start_text: &Vec<u8>, end_text: &Vec<u8>) -> (r: Result<
        (),
        TrackError,
    >)
        requires
            old(self).wf(),
        ensures
            final(self).wf(),
            !(datetime_text_valid(start_text@) && datetime_text_valid(end_text@)) ==> r == Err::<
                (),
                TrackError,
            >(TrackError::Validation),
            r == Err::<(), TrackError>(TrackError::Storage) ==> old(self).next_id >= i64::MAX - 1,
            r is Err ==> (r == Err::<(), TrackError>(TrackError::Validation) || r == Err::<
                (),
                TrackError,
            >(TrackError::Storage)) && *final(self) == *old(self),
            r is Ok ==> datetime_text_valid(start_text@) && datetime_text_valid(end_text@)
                && final(self).sessions@.len() == old(self).sessions@.len() + 1 && (exists|
                o1: i32,
                o2: i32,
            |
                -86400 < o1 < 86400 && -86400 < o2 < 86400 && final(self).sessions@.last()@ == (
                SessionV {
                    id: old(self).next_id as int,
                    topic: topic@,
                    start: with_offset(parsed_stamp(start_text@), o1),
                    end: Some(with_offset(parsed_stamp(end_text@), o2)),
                })) && final(self).sessions@.last()@.duration_seconds() > 0 && forall|i: int|
                0 <= i < old(self).sessions@.len() ==> final(self).sessions@[i] == old(self).sessions@[i],
    {
        let sp = match parse_local(start_text) {
            Err(e) => { return Err(e); },
            Ok(t) => t,
        };
        let ep = match parse_local(end_text) {
            Err(e) => { return Err(e); },
            Ok(t) => t,
        };
        self.add_stamps(topic, sp, ep)
    }

    /// Rewrites the provided fields of the session with the id, all at
    /// once, from already-built timestamps; fails only when the id is
    /// absent. The order of start against end is not re-checked.
    pub fn edit_stamps(
        &mut self,
        id: i64,
        topic: Option<String>,
        start: Option<Timestamp>,
        end: Option<Timestamp>,
    ) -> (r: Result<(), TrackError>)
        requires
            old(self).wf(),
            start matches Some(s) ==> s.valid(),
            end matches Some(e) ==> e.valid(),
        ensures
            final(self).wf(),
            r is Err <==> !old(self).has_id(id as int),
            r is Err ==> r == Err::<(), TrackError>(TrackError::NotFound) && *final(self)
                == *old(self),
            r is Ok ==> {
                let k = old(self).idx_of(id as int);
                let prev = old(self).sessions@[k]@;
                let cur = final(self).sessions@[k]@;
                &&& final(self).next_id == old(self).next_id
                &&& final(self).sessions@.len() == old(self).sessions@.len()
                &&& forall|i: int|
                    0 <= i < old(self).sessions@.len() && i != k ==> final(self).sessions@[i]
                        == old(self).sessions@[i]
                &&& cur.id == prev.id
                &&& cur.topic == (match topic {
                    Some(t) => t@,
                    None => prev.topic,
                })
                &&& cur.start == (match start {
                    Some(s) => s,
                    None => prev.start,
                })
                &&& cur.end == (match end {
                    Some(e) => Some(e),
                    None => prev.end,
                })
            },
    {
        let k = match self.find_id(id) {
            None => { return Err(TrackError::NotFound); },
            Some(k) => k,
        };
        let cur = &self.sessions[k];
        let edited = Session {
            id: cur.id,
            topic: match topic {
                Some(t) => t,
                None => cur.topic.clone(),
            },
            start: match start {
                Some(s) => s,
                None => cur.start,
            },
            end: match end {
                Some(e) => Some(e),
                None => cur.end,
            },
        };
        self.sessions.remove(k);
        self.sessions.insert(k, edited);
        proof {
            let ghost kk = old(self).idx_of(id as int);
            assert(old(self).sessions@[k as int]@.id == id);
            assert(old(self).sessions@[kk]@.id == id);
            assert(kk == k as int);
            assert(self.sessions@ =~= old(self).sessions@.update(k as int, edited));
        }
        Ok(())
    }

    /// Rewrites the provided fields of the session with the id, each
    /// independently and in this order: topic, then start, then end. A text
    /// that does not resolve stops the rewrite there, keeping the fields
    /// already applied; the order of start against end is not re-checked.
    pub fn edit(
        &mut self,
        id: i64,
        topic: Option<String>,
        start_text: Option<&Vec<u8>>,
        end_text: Option<&Vec<u8>>,
    ) -> (r: Result<(), TrackError>)
        requires
            old(self).wf(),
        ensures
            final(self).wf(),
            !old(self).has_id(id as int) <==> r == Err::<(), TrackError>(TrackError::NotFound),
            !old(self).has_id(id as int) ==> *final(self) == *old(self),
            r is Err ==> r == Err::<(), TrackError>(TrackError::NotFound) || r == Err::<
                (),
                TrackError,
            >(TrackError::Validation),
            old(self).has_id(id as int) && start_text is None && end_text is None ==> r is Ok,
            old(self).has_id(id as int) && ((start_text matches Some(t)
                && !datetime_text_valid(t@)) || (end_text matches Some(t)
                && !datetime_text_valid(t@))) ==> r == Err::<(), TrackError>(
                TrackError::Validation,
            ),
            old(self).has_id(id as int) ==> {
                let k = old(self).idx_of(id as int);
                let prev = old(self).sessions@[k]@;
                let cur = final(self).sessions@[k]@;
                &&& final(self).next_id == old(self).next_id
                &&& final(self).sessions@.len() == old(self).sessions@.len()
                &&& forall|i: int|
                    0 <= i < old(self).sessions@.len() && i != k ==> final(self).sessions@[i]
                        == old(self).sessions@[i]
                &&& cur.id == prev.id
                &&& cur.topic == (match topic {
                    Some(t) => t@,
                    None => prev.topic,
                })
                &&& (start_text is None ==> cur.start == prev.start)
                &&& (start_text matches Some(t) && !datetime_text_valid(t@) ==> cur.start
                    == prev.start)
                &&& (match start_text {
                    Some(t) => cur.start == prev.start || (exists|o: i32|
                        -86400 < o < 86400 && cur.start == with_offset(parsed_stamp(t@), o)),
                    None => true,
                })
                &&& (r is Ok ==> match start_text {
                    Some(t) => exists|o: i32|
                        -86400 < o < 86400 && cur.start == with_offset(parsed_stamp(t@), o),
                    None => true,
                })
                &&& (r is Err ==> cur.end == prev.end)
                &&& (end_text is None ==> cur.end == prev.end)
                &&& (r is Ok ==> match end_text {
                    Some(t) => exists|o: i32|
                        -86400 < o < 86400 && cur.end == Some(with_offset(parsed_stamp(t@), o)),
                    None => true,
                })
            },
    {
        if self.find_id(id).is_none() {
            return Err(TrackError::NotFound);
        }
        let ghost k0 = old(self).idx_of(id as int);
        proof {
            assert(old(self).sessions@[k0]@.id == id);
        }
        match self.edit_stamps(id, topic, None, None) {
            Ok(()) => {},
            Err(_) => {},
        }
        proof {
            assert(self.sessions@[k0]@.id == id);
            assert(self.has_id(id as int));
            let ghost k1 = self.idx_of(id as int);
            assert(self.sessions@[k1]@.id == id);
            assert(k1 == k0);
        }
        if let Some(txt) = start_text {
            let snew = match parse_local(txt) {
                Err(e) => { return Err(e); },
                Ok(v) => v,
            };
            match self.edit_stamps(id, None, Some(snew), None) {
                Ok(()) => {},
                Err(_) => {},
            }
            proof {
                assert(self.sessions@[k0]@.id == id);
                assert(self.has_id(id as int));
                let ghost k2 = self.idx_of(id as int);
                assert(self.sessions@[k2]@.id == id);
                assert(k2 == k0);
            }
        }
        if let Some(txt) = end_text {
            let enew = match parse_local(txt) {
                Err(e) => { return Err(e); },
                Ok(v) => v,
            };
            match self.edit_stamps(id, None, None, Some(enew)) {
                Ok(()) => {},
                Err(_) => {},
            }
        }
        Ok(())
    }

    /// Removes the session with the id; fails when there is none.
    pub fn delete(&mut self, id: i64) -> (r: Result<(), TrackError>)
        requires
            old(self).wf(),
        ensures
            final(self).wf(),
            !old(self).has_id(id as int) ==> r == Err::<(), TrackError>(TrackError::NotFound)
                && *final(self) == *old(self),
            old(self).has_id(id as int) ==> r is Ok && final(self).next_id == old(self).next_id
                && final(self).sessions@ == old(self).sessions@.remove(old(self).idx_of(id as int)),
    {
        match self.find_id(id) {
            None => Err(TrackError::NotFound),
            Some(k) => {
                proof {
                    let ghost kk = old(self).idx_of(id as int);
                    assert(old(self).sessions@[k as int]@.id == id);
                    assert(old(self).sessions@[kk]@.id == id);
                    assert(kk == k as int);
                }
                self.sessions.remove(k);
                Ok(())
            },
        }
    }

    /// Deletes every session; ids restart from 1.
    pub fn reset(&mut self)
        ensures
            final(self).wf(),
            final(self).sessions@.len() == 0,
            final(self).next_id == 1,
    {
        self.sessions = Vec::new();
        self.next_id = 1;
    }

    /// Builds a store from recorded sessions, refusing a collection that
    /// breaks the store's rules.
    pub fn try_from_sessions(v: Vec<Session>) -> (r: Option<Store>)
        ensures
            r is Some <==> sessions_admissible(v@),
            r matches Some(st) ==> st.wf() && st.sessions@ == v@,
    {
        let mut max_id: i64 = 0;
        let mut open_seen: bool = false;
        let mut i: usize = 0;
        while i < v.len()
            invariant
                i <= v@.len(),
                0 <= max_id < i64::MAX - 1,
                forall|j: int| 0 <= j < i ==> (#[trigger] v@[j])@.valid(),
                forall|j: int| 0 <= j < i ==> 0 <= (#[trigger] v@[j])@.id <= max_id,
                forall|j: int, k: int|
                    0 <= j < i && 0 <= k < i && j != k ==> (#[trigger] v@[j])@.id != (
                    #[trigger] v@[k])@.id,
                forall|j: int, k: int|
                    0 <= j < i && 0 <= k < i && (#[trigger] v@[j])@.is_open() && (
                    #[trigger] v@[k])@.is_open() ==> j == k,
                open_seen <==> exists|j: int|
                    0 <= j < i && (#[trigger] v@[j])@.is_open(),
            decreases v@.len() - i,
        {
            let s = &v[i];
            if !(s.start.valid_exec() && match &s.end {
                Some(e) => e.valid_exec(),
                None => true,
            }) {
                return None;
            }
            if s.id < 0 || s.id >= i64::MAX - 1 {
                return None;
            }
            if s.end.is_none() {
                if open_seen {
                    return None;
                }
                open_seen = true;
            }
            let mut j: usize = 0;
            while j < i
                invariant
                    j <= i,
                    i < v@.len(),
                    forall|k: int| 0 <= k < j ==> (#[trigger] v@[k])@.id != v@[i as int]@.id,
                decreases i - j,
            {
                if v[j].id == v[i].id {
                    return None;
                }
                j = j + 1;
            }
            if s.id > max_id {
                max_id = s.id;
            }
            i = i + 1;
        }
        Some(Store { sessions: v, next_id: max_id + 1 })
    }

    fn clone_sessions(&self) -> (r: Vec<Session>)
        ensures
            views(r@) =~= views(self.sessions@),
    {
        let mut out: Vec<Session> = Vec::new();
        let mut i: usize = 0;
        while i < self.sessions.len()
            invariant
                i <= self.sessions@.len(),
                out@.len() == i,
                forall|j: int| 0 <= j < i ==> (#[trigger] out@[j])@ == self.sessions@[j]@,
            decreases self.sessions@.len() - i,
        {
            out.push(self.sessions[i].duplicate());
            i = i + 1;
        }
        out
    }

    fn closed_sessions(&self) -> (r: Vec<Session>)
        ensures
            views(r@) =~= closed_views(self.sessions@),
    {
        let mut out: Vec<Session> = Vec::new();
        let mut i: usize = 0;
        while i < self.sessions.len()
            invariant
                i <= self.sessions@.len(),
                views(out@) =~= closed_views(self.sessions@.take(i as int)),
            decreases self.sessions@.len() - i,
        {
            let ghost pre = out@;
            if self.sessions[i].end.is_some() {
                out.push(self.sessions[i].duplicate());
            }
            proof {
                let ghost t1 = self.sessions@.take(i + 1);
                assert(t1.drop_last() =~= self.sessions@.take(i as int));
                assert(t1.last() == self.sessions@[i as int]);
                if self.sessions@[i as int]@.end is Some {
                    lemma_views_push(pre, out@.last());
                    assert(views(out@) =~= views(pre).push(self.sessions@[i as int]@));
                    assert(closed_views(t1) =~= closed_views(t1.drop_last()).push(t1.last()@));
                    assert(views(out@) =~= closed_views(t1));
                } else {
                    assert(closed_views(t1) =~= closed_views(t1.drop_last()));
                    assert(views(out@) =~= closed_views(t1));
                }
            }
            i = i + 1;
        }
        proof {
            assert(self.sessions@.take(self.sessions@.len() as int) =~= self.sessions@);
        }
        out
    }

    /// The `count` most recent sessions: a longest prefix, within `count`,
    /// of the sessions ordered by start, latest first.
    pub fn list(&self, count: usize) -> (r: Vec<Session>)
        requires
            self.wf(),
        ensures
            listing_ok(r@, views(self.sessions@), count as int),
    {
        let copy = self.clone_sessions();
        proof {
            assert(views(copy@).len() == copy@.len());
            assert(views(self.sessions@).len() == self.sessions@.len());
            assert forall|i: int| 0 <= i < copy@.len() implies (#[trigger] copy@[i])@.valid() by {
                assert(views(copy@)[i] == views(self.sessions@)[i]);
                assert(self.sessions@[i]@.valid());
            }
        }
        let mut full = sort_sessions(copy, false);
        let ghost perm = views(full@);
        let n = full.len();
        let keep = if count <= n {
            count
        } else {
            n
        };
        full.truncate(keep);
        proof {
            assert(views(full@) =~= perm.take(keep as int));
            assert(listing_ok(full@, views(self.sessions@), count as int));
        }
        full
    }

    /// The `count` most recent closed sessions, ordered latest first.
    pub fn recent(&self, count: usize) -> (r: Vec<Session>)
        requires
            self.wf(),
        ensures
            listing_ok(r@, closed_views(self.sessions@), count as int),
    {
        let closed = self.closed_sessions();
        proof {
            assert forall|i: int| 0 <= i < closed@.len() implies (#[trigger] closed@[i])@.valid() by {
                assert(closed_views(self.sessions@)[i] == closed@[i]@);
                assert(closed_views(self.sessions@).contains(closed@[i]@));
                lemma_closed_views_from(self.sessions@, closed@[i]@);
                let k = choose|k: int|
                    0 <= k < self.sessions@.len() && (#[trigger] self.sessions@[k])@ == closed@[i]@;
                assert(self.sessions@[k]@.valid());
            }
        }
        let mut full = sort_sessions(closed, false);
        let ghost perm = views(full@);
        let n = full.len();
        let keep = if count <= n {
            count
        } else {
            n
        };
        full.truncate(keep);
        proof {
            assert(views(full@) =~= perm.take(keep as int));
            assert(listing_ok(full@, closed_views(self.sessions@), count as int));
        }
        full
    }

    /// All closed sessions, ordered by start, earliest first.
    pub fn export(&self) -> (r: Vec<Session>)
        requires
            self.wf(),
        ensures
            views(r@).to_multiset() == closed_views(self.sessions@).to_multiset(),
            sorted_by_start(views(r@), true),
            forall|i: int|
                0 <= i < r@.len() ==> (#[trigger] r@[i])@.valid() && r@[i]@.end is Some,
    {
        broadcast use vstd::seq_lib::group_to_multiset_ensures;

        let closed = self.closed_sessions();
        proof {
            assert forall|i: int| 0 <= i < closed@.len() implies (#[trigger] closed@[i])@.valid()
                && closed@[i]@.end is Some by {
                assert(closed_views(self.sessions@)[i] == closed@[i]@);
                assert(closed_views(self.sessions@).contains(closed@[i]@));
                lemma_closed_views_from(self.sessions@, closed@[i]@);
                let k = choose|k: int|
                    0 <= k < self.sessions@.len() && (#[trigger] self.sessions@[k])@ == closed@[i]@;
                assert(self.sessions@[k]@.valid());
            }
        }
        let r = sort_sessions(closed, true);
        proof {
            assert forall|i: int| 0 <= i < r@.len() implies (#[trigger] r@[i])@.valid()
                && r@[i]@.end is Some by {
                assert(views(r@)[i] == r@[i]@);
                assert(views(r@).contains(r@[i]@));
                assert(views(r@).to_multiset().count(r@[i]@) > 0);
                assert(views(closed@).to_multiset().count(r@[i]@) > 0);
                assert(views(closed@).contains(r@[i]@));
                let j = choose|j: int| 0 <= j < views(closed@).len() && views(closed@)[j] == r@[i]@;
                assert(closed@[j]@ == r@[i]@);
            }
        }
        r
    }
}


/// At most one session of a well-formed store is open, whatever operations
/// built it: every operation keeps `wf`, and `wf` pins the open count.
pub proof fn lemma_at_most_one_open(st: Store)
    requires
        st.wf(),
    ensures
        forall|i: int, j: int|
            0 <= i < st.sessions@.len() && 0 <= j < st.sessions@.len() && (
            #[trigger] st.sessions@[i])@.is_open() && (#[trigger] st.sessions@[j])@.is_open()
                ==> i == j,
{
}

/// Round trip: a closed session just recorded turns up in a full listing
/// with the same topic and the same length.
pub proof fn lemma_add_list_round_trip(
    pre: Seq<SessionV>,
    added: SessionV,
    listed: Seq<Session>,
    count: int,
)
    requires
        added.end is Some,
        listing_ok(listed, pre.push(added), count),
        count >= pre.len() + 1,
    ensures
        exists|j: int|
            0 <= j < listed.len() && (#[trigger] listed[j])@.topic == added.topic && listed[j]@.end
                is Some && listed[j]@.duration_seconds() == added.duration_seconds(),
{
    broadcast use vstd::seq_lib::group_to_multiset_ensures;

    let pool = pre.push(added);
    let perm = choose|perm: Seq<SessionV>|
        #![auto]
        perm.to_multiset() == pool.to_multiset() && sorted_by_start(perm, false) && views(listed)
            == perm.take(listed.len() as int);
    assert(pool[pool.len() - 1] == added);
    assert(pool.contains(added));
    assert(pool.to_multiset().count(added) > 0);
    assert(perm.to_multiset().count(added) > 0);
    assert(perm.contains(added));
    let j = choose|j: int| 0 <= j < perm.len() && perm[j] == added;
    assert(perm.to_multiset().len() == pool.to_multiset().len());
    assert(perm.len() == pool.len());
    assert(listed.len() == pool.len());
    assert(perm.take(listed.len() as int) =~= perm);
    assert(views(listed)[j] == listed[j]@);
    assert(listed[j]@ == added);
}


/// How many sessions start at or after the given instant.
pub open spec fn count_started_at_or_after(ss: Seq<SessionV>, x: int) -> int
    decreases ss.len(),
{
    if ss.len() == 0 {
        0
    } else {
        count_started_at_or_after(ss.drop_last(), x) + if ss.last().start.instant() >= x {
            1int
        } else {
            0int
        }
    }
}

proof fn lemma_count_ge_bounds(ss: Seq<SessionV>, x: int)
    ensures
        0 <= count_started_at_or_after(ss, x) <= ss.len(),
    decreases ss.len(),
{
    if ss.len() > 0 {
        lemma_count_ge_bounds(ss.drop_last(), x);
    }
}

proof fn lemma_count_ge_remove(ss: Seq<SessionV>, j: int, x: int)
    requires
        0 <= j < ss.len(),
    ensures
        count_started_at_or_after(ss, x) == count_started_at_or_after(ss.remove(j), x) + (
        if ss[j].start.instant() >= x {
            1int
        } else {
            0int
        }),
    decreases ss.len(),
{
    if j == ss.len() - 1 {
        assert(ss.remove(j) =~= ss.drop_last());
        assert(ss[j] == ss.last());
    } else {
        let sd = ss.drop_last();
        lemma_count_ge_remove(sd, j, x);
        assert(ss.remove(j).drop_last() =~= sd.remove(j));
        assert(ss.remove(j).last() == ss.last());
        assert(sd[j] == ss[j]);
    }
}

proof fn lemma_count_ge_multiset(a: Seq<SessionV>, b: Seq<SessionV>, x: int)
    requires
        a.to_multiset() == b.to_multiset(),
    ensures
        count_started_at_or_after(a, x) == count_started_at_or_after(b, x),
    decreases a.len(),
{
    broadcast use vstd::seq_lib::group_to_multiset_ensures;
    broadcast use vstd::multiset::group_multiset_axioms;

    a.to_multiset_ensures();
    b.to_multiset_ensures();
    if a.len() == 0 {
        assert(b.to_multiset().len() == 0);
        assert(b.len() == 0);
    } else {
        let last = a.last();
        assert(a[a.len() - 1] == last);
        assert(a.contains(last));
        assert(a.to_multiset().count(last) > 0);
        assert(b.to_multiset().count(last) > 0);
        assert(b.contains(last));
        let j = choose|j: int| 0 <= j < b.len() && b[j] == last;
        let a1 = a.drop_last();
        let b1 = b.remove(j);
        a1.to_multiset_ensures();
        assert(a =~= a1.push(last));
        assert(a.to_multiset() =~= a1.to_multiset().insert(last));
        assert(b1.to_multiset() =~= b.to_multiset().remove(last));
        assert(a1.to_multiset() =~= a.to_multiset().remove(last));
        assert(a1.to_multiset() == b1.to_multiset());
        lemma_count_ge_multiset(a1, b1, x);
        lemma_count_ge_remove(b, j, x);
    }
}

proof fn lemma_count_ge_prefix(ss: Seq<SessionV>, x: int, j: int)
    requires
        0 <= j < ss.len(),
        forall|i: int| 0 <= i <= j ==> (#[trigger] ss[i]).start.instant() >= x,
    ensures
        count_started_at_or_after(ss, x) >= j + 1,
    decreases ss.len(),
{
    let sd = ss.drop_last();
    assert(forall|i: int| 0 <= i < sd.len() ==> (#[trigger] sd[i]) == ss[i]);
    if j == ss.len() - 1 {
        assert(ss.last() == ss[j]);
        if j > 0 {
            lemma_count_ge_prefix(sd, x, j - 1);
        } else {
            lemma_count_ge_bounds(sd, x);
        }
    } else {
        lemma_count_ge_prefix(sd, x, j);
    }
}

/// Round trip under ranking: a closed session just recorded turns up in a
/// listing of `count` whenever at most `count` sessions, itself included,
/// start at or after it.
pub proof fn lemma_add_list_round_trip_ranked(
    pre: Seq<SessionV>,
    added: SessionV,
    listed: Seq<Session>,
    count: int,
)
    requires
        added.end is Some,
        listing_ok(listed, pre.push(added), count),
        count_started_at_or_after(pre.push(added), added.start.instant()) <= count,
    ensures
        exists|j: int|
            0 <= j < listed.len() && (#[trigger] listed[j])@.topic == added.topic && listed[j]@.end
                is Some && listed[j]@.duration_seconds() == added.duration_seconds(),
{
    broadcast use vstd::seq_lib::group_to_multiset_ensures;

    let pool = pre.push(added);
    let x = added.start.instant();
    let perm = choose|perm: Seq<SessionV>|
        #![auto]
        perm.to_multiset() == pool.to_multiset() && sorted_by_start(perm, false) && views(listed)
            == perm.take(listed.len() as int);
    assert(pool[pool.len() - 1] == added);
    assert(pool.contains(added));
    assert(pool.to_multiset().count(added) > 0);
    assert(perm.to_multiset().count(added) > 0);
    assert(perm.contains(added));
    let j = choose|j: int| 0 <= j < perm.len() && perm[j] == added;
    assert(perm.to_multiset().len() == pool.to_multiset().len());
    assert(perm.len() == pool.len());
    assert forall|i: int| 0 <= i <= j implies (#[trigger] perm[i]).start.instant() >= x by {
        if i < j {
            assert(start_le(perm[i], perm[j], false));
        }
    }
    lemma_count_ge_prefix(perm, x, j);
    lemma_count_ge_multiset(perm, pool, x);
    assert(j + 1 <= count);
    assert(j < listed.len());
    assert(views(listed)[j] == listed[j]@);
    assert(listed[j]@ == added);
}

} // verus!
