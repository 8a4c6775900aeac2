//! The shared store: the entries, and the wait-groups of blocking pops.
use std::sync::Arc;
use tokio::sync::Notify;
use vstd::prelude::*;
use vstd::utf8::encode_utf8;

use crate::cmd::PushPopDirection;
use crate::resp::{lemma_values_of, values_of, RespData, Value};
use crate::table::Table;

verus! {

broadcast use vstd::std_specs::vec::group_vec_axioms;

#[verifier::external_type_specification]
#[verifier::external_body]
pub struct ExNotify(tokio::sync::Notify);

/// Relies on tokio's `Notify::new`: a signal that holds no permit yet.
#[verifier::external_body]
fn new_signal() -> Arc<Notify> {
    Arc::new(Notify::new())
}

/// Relies on tokio's `Notify::notify_one`: wakes one task waiting on the signal,
/// or leaves a permit for the next one to wait.
#[verifier::external_body]
fn wake_one(signal: &Notify) {
    signal.notify_one()
}

/// Relies on `Arc::clone`: another handle on the same signal.
#[verifier::external_body]
fn share(signal: &Arc<Notify>) -> (r: Arc<Notify>)
    ensures
        r == *signal,
{
    Arc::clone(signal)
}

/// The bookkeeping of the blocking pops parked on one key.
pub struct WaitingList {
    /// How many are parked.
    pub count: u32,
    /// Wakes one of them.
    pub signal: Arc<Notify>,
}

/// The wait-groups by key: a group is there only while some pop is parked on it.
pub struct WaitGroups {
    groups: Table<WaitingList>,
}

/// One more pop parked on `k`.
pub open spec fn registered(w: Map<Seq<char>, nat>, k: Seq<char>) -> Map<Seq<char>, nat> {
    w.insert(
        k,
        if w.contains_key(k) {
            w[k] + 1
        } else {
            1
        },
    )
}

/// One pop fewer parked on `k`; the group goes when none is left.
pub open spec fn released(w: Map<Seq<char>, nat>, k: Seq<char>) -> Map<Seq<char>, nat> {
    if !w.contains_key(k) {
        w
    } else if w[k] <= 1 {
        w.remove(k)
    } else {
        w.insert(k, (w[k] - 1) as nat)
    }
}

impl View for WaitGroups {
    type V = Map<Seq<char>, nat>;

    closed spec fn view(&self) -> Map<Seq<char>, nat> {
        self.groups@.map_values(|g: WaitingList| g.count as nat)
    }
}

impl WaitGroups {
    #[verifier::type_invariant]
    spec fn none_empty(self) -> bool {
        forall|k: Seq<char>| #[trigger] self.groups@.contains_key(k) ==> self.groups@[k].count > 0
    }

    pub fn new() -> (r: Self)
        ensures
            r@ == Map::<Seq<char>, nat>::empty(),
    {
        let r = WaitGroups { groups: Table::new() };
        assert(r@ =~= Map::<Seq<char>, nat>::empty());
        r
    }

    /// How many pops are parked on `key`.
    pub fn pending(&self, key: &String) -> (r: u32)
        ensures
            r == if self@.contains_key(key@) {
                self@[key@]
            } else {
                0
            },
    {
        match self.groups.get(key) {
            Some(g) => g.count,
            None => 0,
        }
    }

    /// Counts one more pop parked on `key` and hands out the signal that wakes it;
    /// `None`, and no change, when the count is at its largest.
    pub fn register(&mut self, key: &String) -> (r: Option<Arc<Notify>>)
        ensures
            r is None <==> (old(self)@.contains_key(key@) && old(self)@[key@] == u32::MAX),
            r is None ==> final(self)@ == old(self)@,
            r is Some ==> final(self)@ == registered(old(self)@, key@),
    {
        proof {
            use_type_invariant(&*self);
        }
        let (count, signal) = match self.groups.get(key) {
            Some(g) => {
                if g.count == u32::MAX {
                    return None;
                }
                (g.count + 1, share(&g.signal))
            },
            None => (1, new_signal()),
        };
        let handed = share(&signal);
        let mut groups: Table<WaitingList> = Table::new();
        std::mem::swap(&mut self.groups, &mut groups);
        groups.insert(key.clone(), WaitingList { count, signal });
        std::mem::swap(&mut self.groups, &mut groups);
        assert(self@ =~= registered(old(self)@, key@));
        Some(handed)
    }

    /// Counts one pop fewer parked on `key`, first waking one when `wake` holds.
    pub fn release(&mut self, key: &String, wake: bool)
        ensures
            final(self)@ == released(old(self)@, key@),
    {
        proof {
            use_type_invariant(&*self);
        }
        let count = match self.groups.get(key) {
            Some(g) => {
                if wake {
                    wake_one(&g.signal);
                }
                g.count
            },
            None => {
                return;
            },
        };
        let mut groups: Table<WaitingList> = Table::new();
        std::mem::swap(&mut self.groups, &mut groups);
        let taken = groups.remove(key);
        if count > 1 {
            match taken {
                Some(g) => {
                    groups.insert(key.clone(), WaitingList { count: count - 1, signal: g.signal });
                },
                None => {},
            }
        }
        std::mem::swap(&mut self.groups, &mut groups);
        assert(self@ =~= released(old(self)@, key@));
    }
}

/// Why a command could not be carried out.
#[derive(Debug, Clone, Copy, PartialEq, Eq, Structural)]
pub enum ExecError {
    /// A list length that an integer reply cannot hold.
    LengthOverflow,
}

pub open spec fn is_list(v: Value) -> bool {
    v matches Value::Array(Some(_))
}

/// The elements of a list value; none for any other value.
pub open spec fn list_items(v: Value) -> Seq<Value> {
    match v {
        Value::Array(Some(l)) => l,
        _ => Seq::empty(),
    }
}

/// `k` holds a value that is not a list.
pub open spec fn holds_other(e: Map<Seq<char>, Value>, k: Seq<char>) -> bool {
    e.contains_key(k) && !is_list(e[k])
}

/// The list at `k`; an absent key holds the empty list.
pub open spec fn list_at(e: Map<Seq<char>, Value>, k: Seq<char>) -> Seq<Value> {
    if e.contains_key(k) {
        list_items(e[k])
    } else {
        Seq::empty()
    }
}

/// What `GET` replies: the value at `k` unless it is absent or an array.
pub open spec fn get_reply(e: Map<Seq<char>, Value>, k: Seq<char>) -> Value {
    if e.contains_key(k) && !(e[k] is Array) {
        e[k]
    } else {
        Value::BulkString(None)
    }
}

/// The reply to a list command on a key that holds another kind of value.
pub open spec fn wrong_type() -> Value {
    Value::SimpleError {
        kind: "WRONGTYPE"@,
        message: "Operation against a key holding the wrong kind of value"@,
    }
}

/// The list after pushing `vals` one by one at the given end.
pub open spec fn pushed(l: Seq<Value>, vals: Seq<Value>, dir: PushPopDirection) -> Seq<Value> {
    match dir {
        PushPopDirection::Left => vals.reverse() + l,
        PushPopDirection::Right => l + vals,
    }
}

/// A range start: from the end when negative, clamped into `0..=len`.
pub open spec fn norm_start(len: int, start: int) -> int {
    if start < 0 {
        if len + start < 0 {
            0
        } else {
            len + start
        }
    } else if start >= len {
        len
    } else {
        start
    }
}

/// A range end: from the end when negative, clamped to at least 0 and at most `len - 1`.
pub open spec fn norm_end(len: int, end: int) -> int {
    if end < 0 {
        if len + end < 0 {
            0
        } else {
            len + end
        }
    } else if end >= len {
        len - 1
    } else {
        end
    }
}

/// The elements from `start` to `end`, both included, after normalising them.
pub open spec fn range_of(l: Seq<Value>, start: int, end: int) -> Seq<Value> {
    let lo = norm_start(l.len() as int, start);
    let e1 = norm_end(l.len() as int, end) + 1;
    let hi = if e1 < l.len() {
        e1
    } else {
        l.len() as int
    };
    if lo < hi {
        l.subrange(lo, hi)
    } else {
        Seq::empty()
    }
}

/// The element that one pop at the given end takes.
pub open spec fn popped_one(l: Seq<Value>, dir: PushPopDirection) -> Value {
    match dir {
        PushPopDirection::Left => l[0],
        PushPopDirection::Right => l.last(),
    }
}

/// What `count` pops at the given end take, in the order they are taken.
pub open spec fn popped(l: Seq<Value>, count: int, dir: PushPopDirection) -> Seq<Value> {
    match dir {
        PushPopDirection::Left => l.subrange(0, count),
        PushPopDirection::Right => l.subrange(l.len() - count, l.len() as int).reverse(),
    }
}

/// What `count` pops at the given end leave.
pub open spec fn left_after(l: Seq<Value>, count: int, dir: PushPopDirection) -> Seq<Value> {
    match dir {
        PushPopDirection::Left => l.subrange(count, l.len() as int),
        PushPopDirection::Right => l.subrange(0, l.len() - count),
    }
}

/// The store as the contracts see it: the entries and, per key, how many pops are parked.
pub struct Model {
    pub entries: Map<Seq<char>, Value>,
    pub waiters: Map<Seq<char>, nat>,
}

/// A non-blocking pop of `count` elements at `k`: the store after it and the reply.
/// A count of one replies with the element itself, a larger one with an array of
/// the elements in the order they were taken. A count above the list's length
/// takes the whole list, as it stood, and the key; popping exactly as many as the
/// list holds leaves the key with an empty list.
pub open spec fn pop_spec(m: Model, k: Seq<char>, count: nat, dir: PushPopDirection) -> (
    Model,
    Value,
) {
    let l = list_at(m.entries, k);
    if count == 0 {
        (m, Value::Array(Some(Seq::empty())))
    } else if holds_other(m.entries, k) {
        (m, wrong_type())
    } else if l.len() == 0 {
        (Model { entries: m.entries.remove(k), ..m }, Value::Array(Some(Seq::empty())))
    } else if count > l.len() {
        (Model { entries: m.entries.remove(k), ..m }, Value::Array(Some(l)))
    } else if count == 1 {
        (
            Model {
                entries: m.entries.insert(k, Value::Array(Some(left_after(l, 1, dir)))),
                ..m
            },
            popped_one(l, dir),
        )
    } else {
        (
            Model {
                entries: m.entries.insert(k, Value::Array(Some(left_after(l, count as int, dir)))),
                ..m
            },
            Value::Array(Some(popped(l, count as int, dir))),
        )
    }
}

/// What a reply or its error is to the contracts.
pub open spec fn reply_view(r: Result<RespData, ExecError>) -> Result<Value, ExecError> {
    match r {
        Ok(d) => Ok(d@),
        Err(e) => Err(e),
    }
}

/// A push of `vals` at the given end of the list at `k`: the store after it and
/// the reply, the new length. A pop parked on `k` leaves its wait-group, woken.
pub open spec fn push_spec(m: Model, k: Seq<char>, vals: Seq<Value>, dir: PushPopDirection) -> (
    Model,
    Result<Value, ExecError>,
) {
    let l = pushed(list_at(m.entries, k), vals, dir);
    if holds_other(m.entries, k) {
        (m, Ok(wrong_type()))
    } else if l.len() > i64::MAX {
        (m, Err(ExecError::LengthOverflow))
    } else {
        (
            Model { entries: m.entries.insert(k, Value::Array(Some(l))), waiters: released(m.waiters, k) },
            Ok(Value::Integer(l.len() as int)),
        )
    }
}

/// The reply to a length query on `k`.
pub open spec fn len_spec(m: Model, k: Seq<char>) -> Result<Value, ExecError> {
    if list_at(m.entries, k).len() > i64::MAX {
        Err(ExecError::LengthOverflow)
    } else {
        Ok(Value::Integer(list_at(m.entries, k).len() as int))
    }
}

/// The end of a blocking pop at `k`, after its wait: the store after it and the reply.
/// A wait that ran out of time gives up its place in the wait-group first.
pub open spec fn finish_spec(m: Model, k: Seq<char>, dir: PushPopDirection, timed_out: bool) -> (
    Model,
    Value,
) {
    let w = if timed_out {
        released(m.waiters, k)
    } else {
        m.waiters
    };
    let l = list_at(m.entries, k);
    if l.len() == 0 {
        (Model { entries: m.entries, waiters: w }, Value::BulkString(None))
    } else {
        (
            Model {
                entries: m.entries.insert(k, Value::Array(Some(left_after(l, 1, dir)))),
                waiters: w,
            },
            Value::Array(Some(seq![Value::BulkString(Some(encode_utf8(k))), popped_one(l, dir)])),
        )
    }
}

/// The entries and the wait-groups, shared by every connection.
pub struct AppState {
    kv: Table<RespData>,
    waiting_lists: WaitGroups,
}

pub proof fn lemma_values_of_concat(a: Seq<RespData>, b: Seq<RespData>)
    ensures
        values_of(a + b) == values_of(a) + values_of(b),
{
    lemma_values_of(a);
    lemma_values_of(b);
    lemma_values_of(a + b);
    assert(values_of(a + b) =~= values_of(a) + values_of(b));
}

pub proof fn lemma_values_of_subrange(a: Seq<RespData>, i: int, j: int)
    requires
        0 <= i <= j <= a.len(),
    ensures
        values_of(a.subrange(i, j)) == values_of(a).subrange(i, j),
{
    lemma_values_of(a);
    lemma_values_of(a.subrange(i, j));
    assert(values_of(a.subrange(i, j)) =~= values_of(a).subrange(i, j));
}

pub proof fn lemma_values_of_reverse(a: Seq<RespData>)
    ensures
        values_of(a.reverse()) == values_of(a).reverse(),
{
    lemma_values_of(a);
    lemma_values_of(a.reverse());
    assert(values_of(a.reverse()) =~= values_of(a).reverse());
}

/// The elements of `v` in reverse order.
fn reversed(v: Vec<RespData>) -> (r: Vec<RespData>)
    ensures
        r@ == v@.reverse(),
{
    let ghost orig = v@;
    let mut v = v;
    let mut r: Vec<RespData> = Vec::new();
    while v.len() > 0
        invariant
            v@.len() <= orig.len(),
            v@ == orig.subrange(0, v@.len() as int),
            r@ == orig.subrange(v@.len() as int, orig.len() as int).reverse(),
        decreases v@.len(),
    {
        let x = v.pop().unwrap();
        r.push(x);
        assert(r@ =~= orig.subrange(v@.len() as int, orig.len() as int).reverse());
        assert(v@ =~= orig.subrange(0, v@.len() as int));
    }
    assert(orig.subrange(0, orig.len() as int) =~= orig);
    r
}

fn wrong_type_reply() -> (r: RespData)
    ensures
        r@ == wrong_type(),
{
    RespData::SimpleError {
        kind: "WRONGTYPE".to_owned(),
        message: "Operation against a key holding the wrong kind of value".to_owned(),
    }
}

impl AppState {
    pub closed spec fn model(&self) -> Model {
        Model {
            entries: self.kv@.map_values(|d: RespData| d@),
            waiters: self.waiting_lists@,
        }
    }

    pub fn new() -> (r: Self)
        ensures
            r.model().entries == Map::<Seq<char>, Value>::empty(),
            r.model().waiters == Map::<Seq<char>, nat>::empty(),
    {
        let r = AppState { kv: Table::new(), waiting_lists: WaitGroups::new() };
        assert(r.model().entries =~= Map::<Seq<char>, Value>::empty());
        r
    }

    /// How many blocking pops are parked on `key`.
    pub fn pending_waiters(&self, key: &String) -> (r: u32)
        ensures
            r == if self.model().waiters.contains_key(key@) {
                self.model().waiters[key@]
            } else {
                0
            },
    {
        self.waiting_lists.pending(key)
    }

    /// Stores `value` at `key`, replacing what was there.
    pub fn set(&mut self, key: String, value: RespData)
        ensures
            final(self).model() == (Model {
                entries: old(self).model().entries.insert(key@, value@),
                ..old(self).model()
            }),
    {
        let ghost k = key@;
        let ghost v = value@;
        self.kv.insert(key, value);
        assert(self.model().entries =~= old(self).model().entries.insert(k, v));
    }

    /// Removes `key` and what it holds, whatever that is.
    pub fn expire_key(&mut self, key: &String)
        ensures
            final(self).model() == (Model {
                entries: old(self).model().entries.remove(key@),
                ..old(self).model()
            }),
    {
        let _ = self.kv.remove(key);
        assert(self.model().entries =~= old(self).model().entries.remove(key@));
    }

    /// A copy of the value at `key`, or the null string when it is absent or an array.
    pub fn get(&self, key: &String) -> (r: RespData)
        ensures
            r@ == get_reply(self.model().entries, key@),
    {
        match self.kv.get(key) {
            Some(RespData::Array(_)) => RespData::null_bulk_string(),
            Some(d) => d.duplicate(),
            None => RespData::null_bulk_string(),
        }
    }

    /// The length of the list at `key` (0 when it is absent or not a list).
    fn list_len_at(&self, key: &String) -> (r: usize)
        ensures
            r == list_at(self.model().entries, key@).len(),
    {
        match self.kv.get(key) {
            Some(RespData::Array(Some(l))) => {
                proof {
                    lemma_values_of(l@);
                }
                l.len()
            },
            _ => 0,
        }
    }

    fn holds_other_at(&self, key: &String) -> (r: bool)
        ensures
            r == holds_other(self.model().entries, key@),
    {
        match self.kv.get(key) {
            Some(RespData::Array(Some(_))) => false,
            Some(_) => true,
            None => false,
        }
    }

    /// Takes the list out of `key`; the key is gone afterwards.
    fn take_list(&mut self, key: &String) -> (r: Vec<RespData>)
        requires
            !holds_other(old(self).model().entries, key@),
        ensures
            values_of(r@) == list_at(old(self).model().entries, key@),
            final(self).model() == (Model {
                entries: old(self).model().entries.remove(key@),
                ..old(self).model()
            }),
    {
        let r = match self.kv.remove(key) {
            Some(RespData::Array(Some(l))) => l,
            _ => Vec::new(),
        };
        assert(self.model().entries =~= old(self).model().entries.remove(key@));
        r
    }

    /// Puts `l` at `key` as a list.
    fn put_list(&mut self, key: &String, l: Vec<RespData>)
        ensures
            final(self).model() == (Model {
                entries: old(self).model().entries.insert(key@, Value::Array(Some(values_of(l@)))),
                ..old(self).model()
            }),
    {
        let d = RespData::Array(Some(l));
        self.set(key.clone(), d);
    }

    /// Pushes `values` one by one at the given end of the list at `key`, making
    /// the list when the key is absent, and wakes one pop parked on `key`.
    /// Replies with the new length.
    pub fn list_push(&mut self, key: &String, values: Vec<RespData>, direction: PushPopDirection) -> (r: Result<RespData, ExecError>)
        ensures
            (final(self).model(), reply_view(r)) == push_spec(
                old(self).model(),
                key@,
                values_of(values@),
                direction,
            ),
    {
        let ghost m = self.model();
        if self.holds_other_at(key) {
            return Ok(wrong_type_reply());
        }
        let n = self.list_len_at(key);
        proof {
            lemma_values_of(values@);
            lemma_values_of(values@.reverse());
        }
        if (n as u128) + (values.len() as u128) > 9223372036854775807u128 {
            return Err(ExecError::LengthOverflow);
        }
        let mut list = self.take_list(key);
        let mut values = values;
        let ghost old_list = list@;
        let ghost old_values = values@;
        let new_list = match direction {
            PushPopDirection::Left => {
                let mut front = reversed(values);
                front.append(&mut list);
                proof {
                    lemma_values_of_reverse(old_values);
                    lemma_values_of_concat(old_values.reverse(), old_list);
                }
                front
            },
            PushPopDirection::Right => {
                list.append(&mut values);
                proof {
                    lemma_values_of_concat(old_list, old_values);
                }
                list
            },
        };
        let len = new_list.len();
        let ghost l = pushed(list_at(m.entries, key@), values_of(old_values), direction);
        proof {
            lemma_values_of(new_list@);
            assert(values_of(new_list@) == l);
        }
        self.put_list(key, new_list);
        self.waiting_lists.release(key, true);
        assert(self.model().entries =~= m.entries.insert(key@, Value::Array(Some(l))));
        Ok(RespData::Integer(len as i64))
    }

    /// The elements of the list at `key` from `start` to `end`, both included;
    /// negative indexes count from the end. An absent key gives the empty array.
    pub fn list_range(&self, key: &String, start: i64, end: i64) -> (r: RespData)
        ensures
            r@ == Value::Array(
                Some(range_of(list_at(self.model().entries, key@), start as int, end as int)),
            ),
    {
        let empty: Vec<RespData> = Vec::new();
        let l: &Vec<RespData> = match self.kv.get(key) {
            Some(RespData::Array(Some(l))) => l,
            _ => &empty,
        };
        proof {
            lemma_values_of(l@);
        }
        let ghost vals = values_of(l@);
        assert(vals == list_at(self.model().entries, key@));
        let len: i128 = l.len() as i128;
        let s: i128 = start as i128;
        let e: i128 = end as i128;
        let lo: i128 = if s < 0 {
            if len + s < 0 {
                0
            } else {
                len + s
            }
        } else if s >= len {
            len
        } else {
            s
        };
        let ne: i128 = if e < 0 {
            if len + e < 0 {
                0
            } else {
                len + e
            }
        } else if e >= len {
            len - 1
        } else {
            e
        };
        let hi: i128 = if ne + 1 < len {
            ne + 1
        } else {
            len
        };
        let mut out: Vec<RespData> = Vec::new();
        if lo < hi {
            let mut i: usize = lo as usize;
            while i < hi as usize
                invariant
                    0 <= lo <= i <= hi <= l@.len(),
                    vals == values_of(l@),
                    vals.len() == l@.len(),
                    forall|j: int| 0 <= j < l@.len() ==> #[trigger] vals[j] == l@[j]@,
                    values_of(out@) == vals.subrange(lo as int, i as int),
                decreases hi - i,
            {
                let d = l[i].duplicate();
                proof {
                    crate::resp::lemma_values_of_push(out@, d);
                    assert(vals.subrange(lo as int, i as int).push(d@) =~= vals.subrange(
                        lo as int,
                        i + 1,
                    ));
                }
                out.push(d);
                i = i + 1;
            }
        } else {
            assert(values_of(out@) =~= Seq::<Value>::empty());
        }
        RespData::array(out)
    }

    /// The length of the list at `key`; 0 when it is absent or not a list.
    pub fn list_len(&self, key: &String) -> (r: Result<RespData, ExecError>)
        ensures
            reply_view(r) == len_spec(self.model(), key@),
    {
        let n = self.list_len_at(key);
        if n as u128 > 9223372036854775807u128 {
            Err(ExecError::LengthOverflow)
        } else {
            Ok(RespData::Integer(n as i64))
        }
    }

    /// Pops up to `count` elements at the given end of the list at `key`, without waiting.
    pub fn list_pop(&mut self, key: &String, count: u32, direction: PushPopDirection) -> (r: RespData)
        ensures
            (final(self).model(), r@) == pop_spec(old(self).model(), key@, count as nat, direction),
    {
        let ghost m = self.model();
        if count == 0 {
            assert(values_of(Seq::<RespData>::empty()) =~= Seq::<Value>::empty());
            return RespData::array(Vec::new());
        }
        if self.holds_other_at(key) {
            return wrong_type_reply();
        }
        let mut list = self.take_list(key);
        let ghost l = list@;
        let ghost lv = list_at(m.entries, key@);
        proof {
            lemma_values_of(l);
        }
        let len = list.len();
        if len == 0 {
            return RespData::array(Vec::new());
        }
        if count as usize > len {
            return RespData::array(list);
        }
        let c = count as usize;
        if c == 1 {
            let x = match direction {
                PushPopDirection::Left => list.remove(0),
                PushPopDirection::Right => list.pop().unwrap(),
            };
            proof {
                match direction {
                    PushPopDirection::Left => {
                        assert(list@ =~= l.subrange(1, l.len() as int));
                        lemma_values_of_subrange(l, 1, l.len() as int);
                    },
                    PushPopDirection::Right => {
                        assert(list@ =~= l.subrange(0, l.len() - 1));
                        lemma_values_of_subrange(l, 0, l.len() - 1);
                    },
                }
            }
            self.put_list(key, list);
            assert(self.model().entries =~= m.entries.insert(
                key@,
                Value::Array(Some(left_after(lv, 1, direction))),
            ));
            return x;
        }
        let taken = match direction {
            PushPopDirection::Left => {
                let rest = list.split_off(c);
                let front = list;
                list = rest;
                proof {
                    lemma_values_of_subrange(l, 0, c as int);
                    lemma_values_of_subrange(l, c as int, l.len() as int);
                }
                front
            },
            PushPopDirection::Right => {
                let back = list.split_off(len - c);
                proof {
                    lemma_values_of_subrange(l, (len - c) as int, l.len() as int);
                    lemma_values_of_subrange(l, 0, (len - c) as int);
                    lemma_values_of_reverse(back@);
                }
                reversed(back)
            },
        };
        proof {
            lemma_values_of(taken@);
        }
        assert(values_of(taken@) == popped(lv, c as int, direction));
        assert(values_of(list@) == left_after(lv, c as int, direction));
        self.put_list(key, list);
        assert(self.model().entries =~= m.entries.insert(
            key@,
            Value::Array(Some(left_after(lv, c as int, direction))),
        ));
        RespData::array(taken)
    }

    /// Parks a blocking pop on `key`: counts it in the key's wait-group and hands
    /// out the signal that a push on `key` will give. `None`, and no change, when
    /// the group's count is at its largest.
    pub fn register_waiter(&mut self, key: &String) -> (r: Option<Arc<Notify>>)
        ensures
            r is None <==> (old(self).model().waiters.contains_key(key@)
                && old(self).model().waiters[key@] == u32::MAX),
            r is None ==> final(self).model() == old(self).model(),
            r is Some ==> final(self).model() == (Model {
                waiters: registered(old(self).model().waiters, key@),
                ..old(self).model()
            }),
    {
        self.waiting_lists.register(key)
    }

    /// Ends a blocking pop on `key` once its wait is over: pops one element at the
    /// given end and replies `[key, element]`, or the null string when the list is
    /// still empty. A wait that ran out of time first leaves the wait-group.
    pub fn finish_blocking_pop(&mut self, key: &String, direction: PushPopDirection, timed_out: bool) -> (r: RespData)
        ensures
            (final(self).model(), r@) == finish_spec(old(self).model(), key@, direction, timed_out),
    {
        if timed_out {
            self.waiting_lists.release(key, false);
        }
        let ghost m1 = self.model();
        if self.list_len_at(key) == 0 {
            return RespData::null_bulk_string();
        }
        let mut list = self.take_list(key);
        let ghost l = list@;
        let ghost lv = list_at(m1.entries, key@);
        proof {
            lemma_values_of(l);
        }
        let x = match direction {
            PushPopDirection::Left => list.remove(0),
            PushPopDirection::Right => list.pop().unwrap(),
        };
        proof {
            match direction {
                PushPopDirection::Left => {
                    assert(list@ =~= l.subrange(1, l.len() as int));
                    lemma_values_of_subrange(l, 1, l.len() as int);
                },
                PushPopDirection::Right => {
                    assert(list@ =~= l.subrange(0, l.len() - 1));
                    lemma_values_of_subrange(l, 0, l.len() - 1);
                },
            }
        }
        assert(x@ == popped_one(lv, direction));
        self.put_list(key, list);
        assert(self.model().entries =~= m1.entries.insert(
            key@,
            Value::Array(Some(left_after(lv, 1, direction))),
        ));
        let mut pair: Vec<RespData> = Vec::new();
        pair.push(RespData::bulk_string(key.as_str()));
        pair.push(x);
        proof {
            lemma_values_of(pair@);
            assert(values_of(pair@) =~= seq![pair@[0]@, pair@[1]@]);
        }
        RespData::array(pair)
    }
}

} // verus!
