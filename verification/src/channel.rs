//! Byte channels to the outside, with a record of every call that is made through them.

use vstd::prelude::*;

verus! {

/// Where bytes come from. A caller of the library implements it around a file, a
/// socket or a callback.
pub trait ByteSource: Sized {
    /// Whether a read of `size` bytes may take the source from `before` to `after` and deliver
    /// `came`. An implementation may say more of itself; it need not say anything.
    open spec fn may_give(before: Self, size: nat, came: Seq<u8>, after: Self) -> bool {
        true
    }

    /// Asks for `size` bytes and returns what was delivered. A result of any other
    /// length than `size` means that the read failed.
    fn read(&mut self, size: usize) -> (came: Vec<u8>)
        ensures
            Self::may_give(*old(self), size as nat, came@, *final(self)),
    ;
}

/// Where bytes go to.
pub trait ByteSink: Sized {
    /// Whether a write of `data` may take the sink from `before` to `after` and end with
    /// `count` bytes taken. An implementation may say more of itself; it need not say anything.
    open spec fn may_take(before: Self, data: Seq<u8>, count: nat, after: Self) -> bool {
        true
    }

    /// Offers `data` and returns how many bytes were taken. Any other number than
    /// `data.len()` means that the write failed.
    fn write(&mut self, data: &[u8]) -> (count: usize)
        ensures
            Self::may_take(*old(self), data@, count as nat, *final(self)),
    ;
}

/// A call of a callback, and its answer.
pub enum Call {
    /// `size` bytes were asked for, and `came` was delivered.
    Read { size: nat, came: Seq<u8> },
    /// `data` was offered, and `count` bytes were taken.
    Write { data: Seq<u8>, count: nat },
}

/// The calls that were made through a channel, in order.
pub struct History {
    pub calls: Seq<Call>,
}

/// Some pieces, one after the other.
pub open spec fn joined(pieces: Seq<Seq<u8>>) -> Seq<u8>
    decreases pieces.len(),
{
    if pieces.len() == 0 {
        Seq::empty()
    } else {
        joined(pieces.drop_last()) + pieces.last()
    }
}

/// A piece may come first or last.
pub proof fn lemma_joined_adds(a: Seq<Seq<u8>>, b: Seq<Seq<u8>>)
    ensures
        joined(a + b) == joined(a) + joined(b),
    decreases b.len(),
{
    if b.len() == 0 {
        assert(a + b =~= a);
        assert(joined(a) + joined(b) =~= joined(a));
    } else {
        lemma_joined_adds(a, b.drop_last());
        assert((a + b).drop_last() =~= a + b.drop_last());
        assert(joined(a) + joined(b) =~= joined(a) + joined(b.drop_last()) + b.last());
    }
}

/// One piece by itself.
pub proof fn lemma_joined_one(piece: Seq<u8>)
    ensures
        joined(seq![piece]) == piece,
{
    assert(seq![piece].drop_last() =~= Seq::empty());
    assert(joined(seq![piece].drop_last()) =~= Seq::empty());
    assert(joined(seq![piece]) =~= piece);
}

/// The tape of a successful read of `bytes`.
pub open spec fn delivered(bytes: Seq<u8>) -> Seq<Result<u8, nat>> {
    Seq::new(bytes.len(), |i: int| Ok::<u8, nat>(bytes[i]))
}

/// Every byte that successful reads gave, in order, and the size of each read that failed.
#[verifier::opaque]
pub open spec fn tape_in(calls: Seq<Call>) -> Seq<Result<u8, nat>>
    decreases calls.len(),
{
    if calls.len() == 0 {
        Seq::empty()
    } else {
        let before = tape_in(calls.drop_last());
        match calls.last() {
            Call::Read { size, came } => if came.len() == size {
                before + delivered(came)
            } else {
                before.push(Err(size))
            },
            Call::Write { data, count } => before,
        }
    }
}

/// What the successful reads gave, read by read.
#[verifier::opaque]
pub open spec fn reads_in(calls: Seq<Call>) -> Seq<Seq<u8>>
    decreases calls.len(),
{
    if calls.len() == 0 {
        Seq::empty()
    } else {
        let before = reads_in(calls.drop_last());
        match calls.last() {
            Call::Read { size, came } => if came.len() == size {
                before.push(came)
            } else {
                before
            },
            Call::Write { data, count } => before,
        }
    }
}

/// The sizes of the reads that failed.
#[verifier::opaque]
pub open spec fn short_in(calls: Seq<Call>) -> Seq<nat>
    decreases calls.len(),
{
    if calls.len() == 0 {
        Seq::empty()
    } else {
        let before = short_in(calls.drop_last());
        match calls.last() {
            Call::Read { size, came } => if came.len() == size {
                before
            } else {
                before.push(size)
            },
            Call::Write { data, count } => before,
        }
    }
}

/// The data of the writes that were taken, write by write.
#[verifier::opaque]
pub open spec fn writes_in(calls: Seq<Call>) -> Seq<Seq<u8>>
    decreases calls.len(),
{
    if calls.len() == 0 {
        Seq::empty()
    } else {
        let before = writes_in(calls.drop_last());
        match calls.last() {
            Call::Read { size, came } => before,
            Call::Write { data, count } => if count == data.len() {
                before.push(data)
            } else {
                before
            },
        }
    }
}

/// The data of the writes that were refused, in full or in part.
#[verifier::opaque]
pub open spec fn refused_in(calls: Seq<Call>) -> Seq<Seq<u8>>
    decreases calls.len(),
{
    if calls.len() == 0 {
        Seq::empty()
    } else {
        let before = refused_in(calls.drop_last());
        match calls.last() {
            Call::Read { size, came } => before,
            Call::Write { data, count } => if count == data.len() {
                before
            } else {
                before.push(data)
            },
        }
    }
}

/// The sizes that were asked for, read by read.
pub open spec fn asked_in(calls: Seq<Call>) -> Seq<nat>
    decreases calls.len(),
{
    if calls.len() == 0 {
        Seq::empty()
    } else {
        let before = asked_in(calls.drop_last());
        match calls.last() {
            Call::Read { size, came } => before.push(size),
            Call::Write { data, count } => before,
        }
    }
}

/// The data that was offered, write by write.
pub open spec fn offered_in(calls: Seq<Call>) -> Seq<Seq<u8>>
    decreases calls.len(),
{
    if calls.len() == 0 {
        Seq::empty()
    } else {
        let before = offered_in(calls.drop_last());
        match calls.last() {
            Call::Read { size, came } => before,
            Call::Write { data, count } => before.push(data),
        }
    }
}

/// The lengths of some pieces.
pub open spec fn lengths(pieces: Seq<Seq<u8>>) -> Seq<nat> {
    Seq::new(pieces.len(), |i: int| pieces[i].len())
}

impl History {
    /// No call has been made yet.
    pub open spec fn blank() -> History {
        History { calls: Seq::empty() }
    }

    /// `self` after one more call.
    pub open spec fn after(self, call: Call) -> History {
        History { calls: self.calls.push(call) }
    }

    /// Every byte that came in, in order, and the size of each read that failed.
    pub open spec fn tape(self) -> Seq<Result<u8, nat>> {
        tape_in(self.calls)
    }

    /// What came in, read by read.
    pub open spec fn reads(self) -> Seq<Seq<u8>> {
        reads_in(self.calls)
    }

    /// The bytes that came in.
    pub open spec fn got(self) -> Seq<u8> {
        joined(self.reads())
    }

    /// The sizes of the reads that failed.
    pub open spec fn short(self) -> Seq<nat> {
        short_in(self.calls)
    }

    /// What was taken by the other side, write by write.
    pub open spec fn writes(self) -> Seq<Seq<u8>> {
        writes_in(self.calls)
    }

    /// The bytes that were taken by the other side.
    pub open spec fn sent(self) -> Seq<u8> {
        joined(self.writes())
    }

    /// The data of the writes that failed.
    pub open spec fn refused(self) -> Seq<Seq<u8>> {
        refused_in(self.calls)
    }

    /// `self` after a read of `bytes`.
    pub open spec fn after_read(self, bytes: Seq<u8>) -> History {
        self.after(Call::Read { size: bytes.len(), came: bytes })
    }

    /// `self` after a read of `size` bytes that delivered `came`.
    pub open spec fn after_short_read(self, size: nat, came: Seq<u8>) -> History {
        self.after(Call::Read { size, came })
    }

    /// `self` after `data` was taken.
    pub open spec fn after_write(self, data: Seq<u8>) -> History {
        self.after(Call::Write { data, count: data.len() })
    }

    /// `self` after `count` bytes of `data` were taken.
    pub open spec fn after_refusal(self, data: Seq<u8>, count: nat) -> History {
        self.after(Call::Write { data, count })
    }

    /// The sizes of all reads.
    pub open spec fn asked(self) -> Seq<nat> {
        asked_in(self.calls)
    }

    /// The data of all writes.
    pub open spec fn offered(self) -> Seq<Seq<u8>> {
        offered_in(self.calls)
    }

    /// No read and no write has failed.
    pub open spec fn clean(self) -> bool {
        self.short().len() == 0 && self.refused().len() == 0
    }

    /// Whether the last call is one that failed.
    pub open spec fn fails_last(self) -> bool {
        &&& self.calls.len() > 0
        &&& match self.calls.last() {
            Call::Read { size, came } => came.len() != size,
            Call::Write { data, count } => count != data.len(),
        }
    }

    /// Whether `self` is `before` with more calls after it.
    pub open spec fn follows(self, before: History) -> bool {
        before.calls.is_prefix_of(self.calls)
    }

    /// The calls after `before`.
    pub open spec fn since(self, before: History) -> History {
        History { calls: self.calls.skip(before.calls.len() as int) }
    }

    /// `self` and then `more`.
    pub open spec fn plus(self, more: History) -> History {
        History { calls: self.calls + more.calls }
    }
}

/// What calls amount to, in two parts.
pub proof fn lemma_plus(a: History, b: History)
    ensures
        a.plus(b).tape() == a.tape() + b.tape(),
        a.plus(b).reads() == a.reads() + b.reads(),
        a.plus(b).got() == a.got() + b.got(),
        a.plus(b).short() == a.short() + b.short(),
        a.plus(b).writes() == a.writes() + b.writes(),
        a.plus(b).sent() == a.sent() + b.sent(),
        a.plus(b).refused() == a.refused() + b.refused(),
    decreases b.calls.len(),
{
    lemma_projections(a, b);
    lemma_joined_adds(a.reads(), b.reads());
    lemma_joined_adds(a.writes(), b.writes());
}

proof fn lemma_projections(a: History, b: History)
    ensures
        a.plus(b).tape() == a.tape() + b.tape(),
        a.plus(b).reads() == a.reads() + b.reads(),
        a.plus(b).short() == a.short() + b.short(),
        a.plus(b).writes() == a.writes() + b.writes(),
        a.plus(b).refused() == a.refused() + b.refused(),
    decreases b.calls.len(),
{
    let all = a.plus(b);
    reveal(tape_in);
    reveal(reads_in);
    reveal(short_in);
    reveal(writes_in);
    reveal(refused_in);
    if b.calls.len() == 0 {
        assert(all.calls =~= a.calls);
    } else {
        let fewer = History { calls: b.calls.drop_last() };
        lemma_projections(a, fewer);
        assert(all.calls.drop_last() =~= a.plus(fewer).calls);
        assert(all.calls.last() == b.calls.last());
    }
    assert(all.tape() =~= a.tape() + b.tape());
    assert(all.reads() =~= a.reads() + b.reads());
    assert(all.short() =~= a.short() + b.short());
    assert(all.writes() =~= a.writes() + b.writes());
    assert(all.refused() =~= a.refused() + b.refused());
}

/// What no calls amount to.
pub proof fn lemma_blank()
    ensures
        History::blank().tape() == Seq::<Result<u8, nat>>::empty(),
        History::blank().reads() == Seq::<Seq<u8>>::empty(),
        History::blank().got() == Seq::<u8>::empty(),
        History::blank().short() == Seq::<nat>::empty(),
        History::blank().writes() == Seq::<Seq<u8>>::empty(),
        History::blank().sent() == Seq::<u8>::empty(),
        History::blank().refused() == Seq::<Seq<u8>>::empty(),
        History::blank().clean(),
{
    reveal(tape_in);
    reveal(reads_in);
    reveal(short_in);
    reveal(writes_in);
    reveal(refused_in);
}

/// What is the same in two records but for what one more call adds.
pub open spec fn read_adds(h: History, next: History, bytes: Seq<u8>) -> bool {
    &&& next.tape() == h.tape() + delivered(bytes)
    &&& next.reads() == h.reads().push(bytes)
    &&& next.got() == h.got() + bytes
    &&& next.short() == h.short()
    &&& next.writes() == h.writes()
    &&& next.sent() == h.sent()
    &&& next.refused() == h.refused()
}

pub open spec fn short_read_adds(h: History, next: History, size: nat) -> bool {
    &&& next.tape() == h.tape().push(Err(size))
    &&& next.reads() == h.reads()
    &&& next.got() == h.got()
    &&& next.short() == h.short().push(size)
    &&& next.writes() == h.writes()
    &&& next.sent() == h.sent()
    &&& next.refused() == h.refused()
}

pub open spec fn write_adds(h: History, next: History, data: Seq<u8>) -> bool {
    &&& next.tape() == h.tape()
    &&& next.reads() == h.reads()
    &&& next.got() == h.got()
    &&& next.short() == h.short()
    &&& next.writes() == h.writes().push(data)
    &&& next.sent() == h.sent() + data
    &&& next.refused() == h.refused()
}

pub open spec fn refusal_adds(h: History, next: History, data: Seq<u8>) -> bool {
    &&& next.tape() == h.tape()
    &&& next.reads() == h.reads()
    &&& next.got() == h.got()
    &&& next.short() == h.short()
    &&& next.writes() == h.writes()
    &&& next.sent() == h.sent()
    &&& next.refused() == h.refused().push(data)
}

/// What one more call adds.
pub proof fn lemma_one_call(h: History, call: Call)
    ensures
        match call {
            Call::Read { size, came } => if came.len() == size {
                read_adds(h, h.after(call), came)
            } else {
                short_read_adds(h, h.after(call), size)
            },
            Call::Write { data, count } => if count == data.len() {
                write_adds(h, h.after(call), data)
            } else {
                refusal_adds(h, h.after(call), data)
            },
        },
{
    reveal(tape_in);
    reveal(reads_in);
    reveal(short_in);
    reveal(writes_in);
    reveal(refused_in);
    let next = h.after(call);
    assert(next.calls.drop_last() =~= h.calls);
    match call {
        Call::Read { size, came } => {
            assert(h.reads().push(came).drop_last() =~= h.reads());
        },
        Call::Write { data, count } => {
            assert(h.writes().push(data).drop_last() =~= h.writes());
        },
    }
}

/// Where no call failed but perhaps the last, all reads are those that succeeded and then the
/// one that failed, and so are all writes.
pub proof fn lemma_calls_in_order(h: History)
    requires
        h.clean() || h.fails_last() && h.short().len() + h.refused().len() == 1,
    ensures
        h.asked() == lengths(h.reads()) + h.short(),
        h.offered() == h.writes() + h.refused(),
    decreases h.calls.len(),
{
    if h.calls.len() == 0 {
        assert(h.calls =~= History::blank().calls);
        lemma_blank();
    } else {
        let before = History { calls: h.calls.drop_last() };
        let last = h.calls.last();
        assert(h.calls =~= before.after(last).calls);
        lemma_one_call(before, last);
        lemma_calls_in_order(before);
        match last {
            Call::Read { size, came } => {
                assert(lengths(before.reads().push(came)) =~= lengths(before.reads()).push(
                    came.len(),
                ));
            },
            Call::Write { data, count } => {},
        }
    }
    assert(h.asked() =~= lengths(h.reads()) + h.short());
    assert(h.offered() =~= h.writes() + h.refused());
}

/// Nothing has passed since now.
pub proof fn lemma_since_itself(h: History)
    ensures
        h.follows(h),
        h.since(h) == History::blank(),
{
    assert(h.since(h).calls =~= Seq::empty());
    lemma_blank();
}

/// The calls up to some point, and the calls since, are all calls, and amount to all that
/// passed.
pub proof fn since_completes(before: History, after: History)
    requires
        after.follows(before),
    ensures
        after == before.plus(after.since(before)),
        after.tape() == before.tape() + after.since(before).tape(),
        after.got() == before.got() + after.since(before).got(),
        after.short() == before.short() + after.since(before).short(),
        after.sent() == before.sent() + after.since(before).sent(),
        after.refused() == before.refused() + after.since(before).refused(),
{
    assert(after.calls =~= before.plus(after.since(before)).calls);
    lemma_plus(before, after.since(before));
}

/// What passed since some point, after something else, in two parts.
pub proof fn lemma_since_adds(first: History, h0: History, h1: History, h2: History)
    requires
        h1.follows(h0),
        h2.follows(h1),
    ensures
        h2.follows(h0),
        first.plus(h2.since(h0)) == first.plus(h1.since(h0)).plus(h2.since(h1)),
        ({
            let before = first.plus(h1.since(h0));
            let after = first.plus(h2.since(h0));
            let added = h2.since(h1);
            &&& after.reads() == before.reads() + added.reads()
            &&& after.got() == before.got() + added.got()
            &&& after.short() == before.short() + added.short()
            &&& after.writes() == before.writes() + added.writes()
            &&& after.refused() == before.refused() + added.refused()
            &&& added.fails_last() ==> after.fails_last()
        }),
{
    lemma_since_joins(h0, h1, h2);
    let before = first.plus(h1.since(h0));
    assert(first.plus(h2.since(h0)).calls =~= before.plus(h2.since(h1)).calls);
    lemma_plus(before, h2.since(h1));
}

/// The calls since some point, in two parts.
pub proof fn lemma_since_joins(h0: History, h1: History, h2: History)
    requires
        h1.follows(h0),
        h2.follows(h1),
    ensures
        h2.follows(h0),
        h2.since(h0) == h1.since(h0).plus(h2.since(h1)),
        h2.since(h0).tape() == h1.since(h0).tape() + h2.since(h1).tape(),
        h2.since(h0).reads() == h1.since(h0).reads() + h2.since(h1).reads(),
        h2.since(h0).got() == h1.since(h0).got() + h2.since(h1).got(),
        h2.since(h0).short() == h1.since(h0).short() + h2.since(h1).short(),
        h2.since(h0).writes() == h1.since(h0).writes() + h2.since(h1).writes(),
        h2.since(h0).sent() == h1.since(h0).sent() + h2.since(h1).sent(),
        h2.since(h0).refused() == h1.since(h0).refused() + h2.since(h1).refused(),
        h2.since(h1).fails_last() ==> h2.since(h0).fails_last(),
{
    let a = h0.calls;
    let b = h1.calls;
    let c = h2.calls;
    assert forall|i: int| 0 <= i < a.len() implies a[i] == c[i] by {
        assert(a[i] == b[i]);
        assert(b[i] == c[i]);
    }
    assert(a =~= c.subrange(0, a.len() as int));
    assert forall|i: int| a.len() <= i < b.len() implies b[i] == c[i] by {}
    assert(h2.since(h0).calls =~= h1.since(h0).plus(h2.since(h1)).calls);
    lemma_plus(h1.since(h0), h2.since(h1));
}

/// What passes next is added to what passed since some point.
pub proof fn lemma_since(h0: History, h: History)
    requires
        h.follows(h0),
    ensures
        forall|call: Call|
            #![trigger h.after(call)]
            h.after(call).follows(h0) && h.after(call).since(h0) == h.since(h0).after(call),
        forall|bytes: Seq<u8>|
            #![trigger h.after_read(bytes)]
            read_adds(h.since(h0), h.after_read(bytes).since(h0), bytes),
        forall|size: nat, came: Seq<u8>|
            #![trigger h.after_short_read(size, came)]
            came.len() != size ==> short_read_adds(
                h.since(h0),
                h.after_short_read(size, came).since(h0),
                size,
            ),
        forall|data: Seq<u8>|
            #![trigger h.after_write(data)]
            write_adds(h.since(h0), h.after_write(data).since(h0), data),
        forall|data: Seq<u8>, count: nat|
            #![trigger h.after_refusal(data, count)]
            count != data.len() ==> refusal_adds(
                h.since(h0),
                h.after_refusal(data, count).since(h0),
                data,
            ),
{
    assert forall|call: Call| #![trigger h.after(call)]
        h.after(call).follows(h0) && h.after(call).since(h0) == h.since(h0).after(call) by {
        assert(h.after(call).since(h0).calls =~= h.since(h0).after(call).calls);
    }
    assert forall|bytes: Seq<u8>| #![trigger h.after_read(bytes)]
        read_adds(h.since(h0), h.after_read(bytes).since(h0), bytes) by {
        lemma_one_call(h.since(h0), Call::Read { size: bytes.len(), came: bytes });
    }
    assert forall|size: nat, came: Seq<u8>| #![trigger h.after_short_read(size, came)]
        came.len() != size implies short_read_adds(
        h.since(h0),
        h.after_short_read(size, came).since(h0),
        size,
    ) by {
        lemma_one_call(h.since(h0), Call::Read { size, came });
    }
    assert forall|data: Seq<u8>| #![trigger h.after_write(data)]
        write_adds(h.since(h0), h.after_write(data).since(h0), data) by {
        lemma_one_call(h.since(h0), Call::Write { data, count: data.len() });
    }
    assert forall|data: Seq<u8>, count: nat| #![trigger h.after_refusal(data, count)]
        count != data.len() implies refusal_adds(
        h.since(h0),
        h.after_refusal(data, count).since(h0),
        data,
    ) by {
        lemma_one_call(h.since(h0), Call::Write { data, count });
    }
}

/// The calls that a source can answer.
pub open spec fn source_call<C: ByteSource>() -> spec_fn(C, Call, C) -> bool {
    |before: C, call: Call, after: C|
        match call {
            Call::Read { size, came } => C::may_give(before, size, came, after),
            Call::Write { data, count } => false,
        }
}

/// The calls that a source can answer and that ask for `size` bytes.
pub open spec fn read_call<C: ByteSource>(size: nat) -> spec_fn(C, Call, C) -> bool {
    |before: C, call: Call, after: C|
        source_call::<C>()(before, call, after) && (call matches Call::Read { size: asked, came }
            && asked == size)
}

/// The calls that a sink can answer.
pub open spec fn sink_call<C: ByteSink>() -> spec_fn(C, Call, C) -> bool {
    |before: C, call: Call, after: C|
        match call {
            Call::Read { size, came } => false,
            Call::Write { data, count } => C::may_take(before, data, count, after),
        }
}

/// The calls that a source that is a sink too can answer.
pub open spec fn port_call<C: ByteSource + ByteSink>() -> spec_fn(C, Call, C) -> bool {
    |before: C, call: Call, after: C|
        match call {
            Call::Read { size, came } => C::may_give(before, size, came, after),
            Call::Write { data, count } => C::may_take(before, data, count, after),
        }
}

/// Whether some calls, made one after the other, took the callbacks from `before` to `after`.
pub open spec fn calls_made<C>(
    made: spec_fn(C, Call, C) -> bool,
    before: C,
    calls: Seq<Call>,
    after: C,
) -> bool
    decreases calls.len(),
{
    if calls.len() == 0 {
        before == after
    } else {
        exists|between: C|
            calls_made(made, before, calls.drop_last(), between) && #[trigger] made(
                between,
                calls.last(),
                after,
            )
    }
}

proof fn lemma_calls_join<C>(
    made: spec_fn(C, Call, C) -> bool,
    a: C,
    first: Seq<Call>,
    b: C,
    then: Seq<Call>,
    c: C,
)
    requires
        calls_made(made, a, first, b),
        calls_made(made, b, then, c),
    ensures
        calls_made(made, a, first + then, c),
    decreases then.len(),
{
    if then.len() == 0 {
        assert(first + then =~= first);
    } else {
        let between = choose|between: C|
            calls_made(made, b, then.drop_last(), between) && #[trigger] made(
                between,
                then.last(),
                c,
            );
        lemma_calls_join(made, a, first, b, then.drop_last(), between);
        assert((first + then).drop_last() =~= first + then.drop_last());
        assert(made(between, (first + then).last(), c));
    }
}

proof fn lemma_calls_widen<C>(
    made: spec_fn(C, Call, C) -> bool,
    wider: spec_fn(C, Call, C) -> bool,
    a: C,
    calls: Seq<Call>,
    b: C,
)
    requires
        calls_made(made, a, calls, b),
        forall|x: C, call: Call, y: C| #[trigger] made(x, call, y) ==> wider(x, call, y),
    ensures
        calls_made(wider, a, calls, b),
    decreases calls.len(),
{
    if calls.len() > 0 {
        let between = choose|between: C|
            calls_made(made, a, calls.drop_last(), between) && #[trigger] made(
                between,
                calls.last(),
                b,
            );
        lemma_calls_widen(made, wider, a, calls.drop_last(), between);
        assert(wider(between, calls.last(), b));
    }
}

/// A pair of callbacks and the record of the calls that were made to them. What they answer
/// is theirs; that each call on record was made, with what, and what came of it, is what the
/// contracts say with `reached`.
pub struct Channel<C> {
    callbacks: C,
    history: Ghost<History>,
}

impl<C> View for Channel<C> {
    type V = History;

    closed spec fn view(&self) -> History {
        self.history@
    }
}

impl<C> Channel<C> {
    /// The callbacks themselves.
    pub closed spec fn inner(&self) -> C {
        self.callbacks
    }

    /// The calls that were made, with their answers.
    pub open spec fn calls(&self) -> Seq<Call> {
        self@.calls
    }

    /// A channel through which nothing has passed.
    pub fn new(callbacks: C) -> (channel: Channel<C>)
        ensures
            channel@ == History::blank(),
            channel.inner() == callbacks,
    {
        Channel { callbacks, history: Ghost(History::blank()) }
    }

    /// Gives the callbacks back.
    pub fn into_callbacks(self) -> (callbacks: C)
        ensures
            callbacks == self.inner(),
    {
        self.callbacks
    }
}

/// Whether a channel got from `before` to `after` by the calls that its record has gained:
/// they were made one after the other, and they are what the callbacks went through.
pub open spec fn reached<C>(
    made: spec_fn(C, Call, C) -> bool,
    before: Channel<C>,
    after: Channel<C>,
) -> bool {
    &&& after@.follows(before@)
    &&& calls_made(made, before.inner(), after@.since(before@).calls, after.inner())
}

/// Without a call nothing changes.
pub proof fn lemma_reached_itself<C>(made: spec_fn(C, Call, C) -> bool, channel: Channel<C>)
    ensures
        reached(made, channel, channel),
{
    lemma_since_itself(channel@);
}

/// Calls, and then more calls.
pub proof fn lemma_reached<C>(
    made: spec_fn(C, Call, C) -> bool,
    a: Channel<C>,
    b: Channel<C>,
    c: Channel<C>,
)
    requires
        reached(made, a, b),
        reached(made, b, c),
    ensures
        reached(made, a, c),
{
    lemma_since_joins(a@, b@, c@);
    lemma_calls_join(
        made,
        a.inner(),
        b@.since(a@).calls,
        b.inner(),
        c@.since(b@).calls,
        c.inner(),
    );
}

/// Calls that ask for so many bytes are calls of a source.
pub proof fn lemma_sized_reached<C: ByteSource>(size: nat, a: Channel<C>, b: Channel<C>)
    requires
        reached(read_call::<C>(size), a, b),
    ensures
        reached(source_call::<C>(), a, b),
{
    lemma_calls_widen(
        read_call::<C>(size),
        source_call::<C>(),
        a.inner(),
        b@.since(a@).calls,
        b.inner(),
    );
}

/// Calls of a source are calls of a source that is a sink too.
pub proof fn lemma_source_reached<C: ByteSource + ByteSink>(a: Channel<C>, b: Channel<C>)
    requires
        reached(source_call::<C>(), a, b),
    ensures
        reached(port_call::<C>(), a, b),
{
    lemma_calls_widen(
        source_call::<C>(),
        port_call::<C>(),
        a.inner(),
        b@.since(a@).calls,
        b.inner(),
    );
}

/// Calls of a sink are calls of a source that is a sink too.
pub proof fn lemma_sink_reached<C: ByteSource + ByteSink>(a: Channel<C>, b: Channel<C>)
    requires
        reached(sink_call::<C>(), a, b),
    ensures
        reached(port_call::<C>(), a, b),
{
    lemma_calls_widen(
        sink_call::<C>(),
        port_call::<C>(),
        a.inner(),
        b@.since(a@).calls,
        b.inner(),
    );
}

/// Calls of a source write nothing.
pub proof fn lemma_source_writes_nothing<C: ByteSource>(a: Channel<C>, b: Channel<C>)
    requires
        reached(source_call::<C>(), a, b),
    ensures
        b@.since(a@).writes().len() == 0,
        b@.since(a@).refused().len() == 0,
{
    lemma_source_calls(a.inner(), b@.since(a@).calls, b.inner());
}

proof fn lemma_source_calls<C: ByteSource>(a: C, calls: Seq<Call>, b: C)
    requires
        calls_made(source_call::<C>(), a, calls, b),
    ensures
        writes_in(calls).len() == 0,
        refused_in(calls).len() == 0,
    decreases calls.len(),
{
    reveal(writes_in);
    reveal(refused_in);
    if calls.len() > 0 {
        let between = choose|between: C|
            calls_made(source_call::<C>(), a, calls.drop_last(), between) && #[trigger]
            source_call::<C>()(between, calls.last(), b);
        lemma_source_calls(a, calls.drop_last(), between);
    }
}

proof fn lemma_reached_once<C>(
    made: spec_fn(C, Call, C) -> bool,
    before: Channel<C>,
    call: Call,
    after: Channel<C>,
)
    requires
        after@ == before@.after(call),
        made(before.inner(), call, after.inner()),
    ensures
        reached(made, before, after),
{
    let added = after@.since(before@).calls;
    assert(added =~= seq![call]);
    assert(added.drop_last() =~= Seq::empty());
    assert(calls_made(made, before.inner(), added.drop_last(), before.inner()));
    assert(made(before.inner(), added.last(), after.inner()));
}

impl<C: ByteSource> Channel<C> {
    /// Reads exactly `size` bytes, or `None` if the source delivered any other number.
    pub fn receive(&mut self, size: usize) -> (bytes: Option<Vec<u8>>)
        ensures
            exists|source: &mut C, came: Vec<u8>|
                #![trigger call_ensures(C::read, (source, size), came)]
                {
                    &&& call_ensures(C::read, (source, size), came)
                    &&& *source == old(self).inner()
                    &&& *final(source) == final(self).inner()
                    &&& if came@.len() == size {
                        bytes == Some(came)
                    } else {
                        bytes is None
                    }
                },
            reached(source_call::<C>(), *old(self), *final(self)),
            reached(read_call::<C>(size as nat), *old(self), *final(self)),
            exists|came: Seq<u8>|
                {
                    &&& final(self)@ == #[trigger] old(self)@.after_short_read(size as nat, came)
                    &&& bytes is Some <==> came.len() == size
                    &&& bytes matches Some(bytes) ==> bytes@ == came
                },
            bytes matches Some(bytes) ==> bytes@.len() == size && final(self)@
                == old(self)@.after_read(bytes@),
    {
        let bytes = self.callbacks.read(size);
        let ghost call = Call::Read { size: size as nat, came: bytes@ };
        self.history = Ghost(self.history@.after(call));
        proof {
            lemma_reached_once(source_call::<C>(), *old(self), call, *self);
            lemma_reached_once(read_call::<C>(size as nat), *old(self), call, *self);
            assert(self@ == old(self)@.after_short_read(size as nat, bytes@));
        }
        if bytes.len() == size {
            Some(bytes)
        } else {
            None
        }
    }
}

impl<C: ByteSource> Channel<C> {
    /// Reads one byte.
    pub fn receive_byte(&mut self) -> (byte: Option<u8>)
        ensures
            reached(read_call::<C>(1), *old(self), *final(self)),
            exists|came: Seq<u8>|
                {
                    &&& final(self)@ == #[trigger] old(self)@.after_short_read(1, came)
                    &&& byte is Some <==> came.len() == 1
                    &&& byte matches Some(byte) ==> came == seq![byte]
                },
            final(self)@.since(old(self)@).tape() == seq![
                match byte {
                    Some(byte) => Ok(byte),
                    None => Err(1nat),
                },
            ],
    {
        let ghost h = self@;
        let bytes: Option<Vec<u8>> = self.receive(1);
        let ghost came = choose|came: Seq<u8>|
            {
                &&& self@ == #[trigger] h.after_short_read(1, came)
                &&& bytes is Some <==> came.len() == 1
                &&& bytes matches Some(bytes) ==> bytes@ == came
            };
        proof {
            lemma_since_itself(h);
            lemma_blank();
            lemma_since(h, h);
        }
        match bytes {
            Some(bytes) => {
                let byte: u8 = bytes[0];
                assert(bytes@ =~= seq![byte]);
                assert(self@.since(h).tape() =~= seq![Ok(byte)]);
                Some(byte)
            },
            None => {
                assert(self@.since(h).tape() =~= seq![Err(1nat)]);
                None
            },
        }
    }
}

impl<C: ByteSink> Channel<C> {
    /// Writes `data`; tells whether all of it was taken.
    pub fn send(&mut self, data: &[u8]) -> (taken: bool)
        ensures
            exists|sink: &mut C, count: usize|
                #![trigger call_ensures(C::write, (sink, data), count)]
                {
                    &&& call_ensures(C::write, (sink, data), count)
                    &&& *sink == old(self).inner()
                    &&& *final(sink) == final(self).inner()
                    &&& taken == (count == data@.len())
                },
            reached(sink_call::<C>(), *old(self), *final(self)),
            exists|count: nat|
                final(self)@ == #[trigger] old(self)@.after_refusal(data@, count) && taken == (count
                    == data@.len()),
            taken ==> final(self)@ == old(self)@.after_write(data@),
    {
        let count = self.callbacks.write(data);
        let ghost call = Call::Write { data: data@, count: count as nat };
        self.history = Ghost(self.history@.after(call));
        proof {
            lemma_reached_once(sink_call::<C>(), *old(self), call, *self);
            assert(self@ == old(self)@.after_refusal(data@, count as nat));
        }
        count == data.len()
    }
}

} // verus!
