use std::collections::VecDeque;

use vstd::prelude::*;

use crate::parser::ParseError;

verus! {

/// What a checkpoint stream is, abstractly: the whole item sequence it reads,
/// how many items have been logically consumed, and the positions recorded by
/// the active checkpoints (innermost last).
pub struct StreamModel<T> {
    pub items: Seq<T>,
    pub pos: nat,
    pub marks: Seq<nat>,
}

impl<T> StreamModel<T> {
    /// Positions never run past the end, and checkpoints are ordered and lie
    /// at or before the current position.
    pub open spec fn wf(self) -> bool {
        &&& self.pos <= self.items.len()
        &&& forall|i: int, j: int|
            0 <= i <= j < self.marks.len() ==> self.marks[i] <= self.marks[j]
        &&& forall|i: int| 0 <= i < self.marks.len() ==> self.marks[i] <= self.pos
    }

    /// The items that the following reads return, in order.
    pub open spec fn rest(self) -> Seq<T> {
        self.items.skip(self.pos as int)
    }

    /// The item that the next read returns, if any.
    pub open spec fn next_item(self) -> Option<T> {
        if self.pos < self.items.len() {
            Some(self.items[self.pos as int])
        } else {
            None
        }
    }

    pub open spec fn stepped(self) -> StreamModel<T> {
        if self.pos < self.items.len() {
            StreamModel { pos: self.pos + 1, ..self }
        } else {
            self
        }
    }

    /// The state after `n` reads.
    pub open spec fn steps(self, n: nat) -> StreamModel<T>
        decreases n,
    {
        if n == 0 {
            self
        } else {
            self.stepped().steps((n - 1) as nat)
        }
    }

    pub open spec fn pushed(self) -> StreamModel<T> {
        StreamModel { marks: self.marks.push(self.pos), ..self }
    }

    /// Rewinding to the innermost checkpoint, which is closed.
    pub open spec fn popped(self) -> StreamModel<T> {
        if self.marks.len() > 0 {
            StreamModel {
                pos: self.marks.last(),
                marks: self.marks.drop_last(),
                ..self
            }
        } else {
            self
        }
    }

    /// Closing the innermost checkpoint and keeping what was read since.
    pub open spec fn dropped(self) -> StreamModel<T> {
        if self.marks.len() > 0 {
            StreamModel { marks: self.marks.drop_last(), ..self }
        } else {
            self
        }
    }

    /// The same stream, moved to position `p`.
    pub open spec fn at(self, p: nat) -> StreamModel<T> {
        StreamModel { pos: p, ..self }
    }
}

/// Reading `n` items moves the position by `n`, or to the end, and changes
/// nothing else.
pub proof fn lemma_steps<T>(m: StreamModel<T>, n: nat)
    requires
        m.pos <= m.items.len(),
    ensures
        m.steps(n) == m.at(
            if m.pos + n <= m.items.len() {
                (m.pos + n) as nat
            } else {
                m.items.len()
            },
        ),
    decreases n,
{
    if n > 0 {
        lemma_steps(m.stepped(), (n - 1) as nat);
    }
}

/// Rewinding: after `push`, any number of reads and `pop`, the stream is in
/// the state it had before `push`: same position, same checkpoints, and so the
/// same items come next.
pub proof fn lemma_checkpoint_symmetry<T>(m: StreamModel<T>, n: nat)
    requires
        m.wf(),
    ensures
        m.pushed().steps(n).popped() == m,
        m.pushed().steps(n).popped().rest() == m.rest(),
{
    lemma_steps(m.pushed(), n);
    assert(m.pushed().steps(n).marks.drop_last() =~= m.marks);
}

/// Committing: after `push`, reads and `drop`, the stream is where the reads
/// alone would have left it; nothing is replayed.
pub proof fn lemma_checkpoint_commit<T>(m: StreamModel<T>, n: nat)
    requires
        m.wf(),
    ensures
        m.pushed().steps(n).dropped() == m.steps(n),
{
    lemma_steps(m.pushed(), n);
    lemma_steps(m, n);
    assert(m.pushed().steps(n).marks.drop_last() =~= m.marks);
}

/// Nested rewinding: an inner checkpoint rewound, then more reads, then the
/// outer checkpoint rewound, gives back the state before the outer `push`;
/// what the inner rewind replayed is replayed again by the outer one.
pub proof fn lemma_nested_rewind<T>(m: StreamModel<T>, a: nat, b: nat, c: nat)
    requires
        m.wf(),
    ensures
        m.pushed().steps(a).pushed().steps(b).popped().steps(c).popped() == m,
{
    let m1 = m.pushed();
    lemma_steps(m1, a);
    let m2 = m1.steps(a).pushed();
    lemma_steps(m2, b);
    let m3 = m2.steps(b).popped();
    assert(m3.marks =~= m1.marks);
    lemma_steps(m3, c);
    assert(m3.steps(c).popped().marks =~= m.marks);
}

/// A checkpoint taken and then closed, after the position moved to `p`:
/// rewinding restores the state, committing keeps the new position.
pub proof fn lemma_checkpoint_closed<T>(m: StreamModel<T>, p: nat)
    ensures
        m.pushed().at(p).popped() == m,
        m.pushed().at(p).dropped() == m.at(p),
{
    assert(m.pushed().at(p).marks.drop_last() =~= m.marks);
}

/// The item at which a run of reads stopped is the one the next read returns.
pub proof fn lemma_stop_item_next<T>(m: StreamModel<T>, stop: nat)
    requires
        m.wf(),
        m.pos <= stop < m.items.len(),
    ensures
        m.at(stop).next_item() == Some(m.items[stop as int]),
        m.at(stop).stepped().pos == stop + 1,
{
}

/// Failure of a checkpoint operation that needs an active checkpoint.
#[derive(Debug, Clone, Copy, PartialEq, Eq, Structural)]
pub enum PopError {
    PopOnEmptyStack,
}

/// A forward-only reader over a sequence of items that supports nested
/// checkpoints: `push` starts one, `pop` rewinds to it and `drop` commits.
/// Items are pulled from the source at most once; rewound items are replayed
/// from a buffer.
pub struct CheckpointIterator<T> {
    inner: Vec<T>,
    next: usize,
    stack: Vec<(usize, Vec<T>)>,
    buf: VecDeque<T>,
    current_pos: usize,
}

impl<T: Copy> CheckpointIterator<T> {
    pub closed spec fn view(&self) -> StreamModel<T> {
        StreamModel {
            items: self.inner@,
            pos: self.current_pos as nat,
            marks: Seq::new(self.stack@.len(), |i: int| self.stack@[i].0 as nat),
        }
    }

    /// Buffered items are exactly the ones between the logical position and the
    /// source cursor; each checkpoint holds exactly the items read since it was
    /// taken and before the next one was.
    pub closed spec fn wf(&self) -> bool {
        &&& self.next <= self.inner@.len()
        &&& self.current_pos <= self.next
        &&& self.buf@ == self.inner@.subrange(self.current_pos as int, self.next as int)
        &&& forall|i: int| 0 <= i < self.stack@.len() ==> #[trigger] self.checkpoint_ok(i)
    }

    /// Where the items captured by checkpoint `i` end.
    closed spec fn capture_end(&self, i: int) -> usize {
        if i + 1 < self.stack@.len() {
            self.stack@[i + 1].0
        } else {
            self.current_pos
        }
    }

    closed spec fn checkpoint_ok(&self, i: int) -> bool {
        &&& self.stack@[i].0 <= self.capture_end(i)
        &&& self.stack@[i].1@ == self.inner@.subrange(
            self.stack@[i].0 as int,
            self.capture_end(i) as int,
        )
    }

    pub proof fn lemma_wf_model(&self)
        requires
            self.wf(),
        ensures
            self@.wf(),
            self@.pos <= usize::MAX,
    {
        let s = self.stack@;
        assert forall|i: int, j: int| 0 <= i <= j < s.len() implies s[i].0 <= s[j].0 by {
            self.lemma_marks_ordered(i, j);
        }
        assert forall|i: int| 0 <= i < s.len() implies s[i].0 <= self.current_pos by {
            self.lemma_mark_le_pos(i);
        }
    }

    proof fn lemma_mark_le_pos(&self, i: int)
        requires
            self.wf(),
            0 <= i < self.stack@.len(),
        ensures
            self.stack@[i].0 <= self.current_pos,
        decreases self.stack@.len() - i,
    {
        assert(self.checkpoint_ok(i));
        if i + 1 < self.stack@.len() {
            self.lemma_mark_le_pos(i + 1);
        }
    }

    proof fn lemma_marks_ordered(&self, i: int, j: int)
        requires
            self.wf(),
            0 <= i <= j < self.stack@.len(),
        ensures
            self.stack@[i].0 <= self.stack@[j].0,
        decreases j - i,
    {
        if i < j {
            assert(self.checkpoint_ok(i));
            self.lemma_marks_ordered(i + 1, j);
        }
    }

    /// A stream over `items`, at position 0 and with no checkpoint.
    pub fn new(items: Vec<T>) -> (r: Self)
        ensures
            r.wf(),
            r@ == (StreamModel::<T> { items: items@, pos: 0, marks: Seq::empty() }),
    {
        let r = CheckpointIterator {
            inner: items,
            next: 0,
            stack: Vec::new(),
            buf: VecDeque::new(),
            current_pos: 0,
        };
        assert(r@.marks =~= Seq::<nat>::empty());
        assert(r.buf@ =~= r.inner@.subrange(0, 0));
        r
    }

    /// Starts a checkpoint at the current position and returns that position.
    pub fn push(&mut self) -> (r: usize)
        requires
            old(self).wf(),
        ensures
            final(self).wf(),
            final(self)@ == old(self)@.pushed(),
            r == old(self)@.pos,
    {
        let ghost old_stack = self.stack@;
        self.stack.push((self.current_pos, Vec::new()));
        proof {
            assert(self.stack@[old_stack.len() as int].1@ =~= self.inner@.subrange(
                self.current_pos as int,
                self.current_pos as int,
            ));
            assert(self@.marks =~= old(self)@.marks.push(old(self)@.pos));
            assert forall|i: int| 0 <= i < self.stack@.len() implies self.checkpoint_ok(i) by {
                if i < old_stack.len() {
                    assert(old(self).checkpoint_ok(i));
                    assert(self.stack@[i] == old_stack[i]);
                }
            }
        }
        self.current_pos
    }

    /// The number of items logically consumed so far.
    pub fn current_position(&self) -> (r: usize)
        requires
            self.wf(),
        ensures
            r == self@.pos,
    {
        self.current_pos
    }

    /// Ends the innermost checkpoint and rewinds to where it was taken: the
    /// items read since are read again. Returns the restored position.
    pub fn pop(&mut self) -> (r: Result<usize, PopError>)
        requires
            old(self).wf(),
        ensures
            final(self).wf(),
            final(self)@ == old(self)@.popped(),
            old(self)@.marks.len() == 0 <==> r == Err::<usize, PopError>(PopError::PopOnEmptyStack),
            old(self)@.marks.len() > 0 ==> r == Ok::<usize, PopError>(old(self)@.marks.last() as usize),
    {
        let ghost s0 = self.stack@;
        let top = self.stack.pop();
        match top {
            None => Err(PopError::PopOnEmptyStack),
            Some(t) => {
                proof {
                    assert(t == s0[s0.len() - 1]);
                    assert(old(self).checkpoint_ok(s0.len() - 1));
                }
                let (p, captured) = t;
                let mut i: usize = captured.len();
                while i > 0
                    invariant
                        i <= captured@.len(),
                        captured@ == self.inner@.subrange(p as int, old(self).current_pos as int),
                        self.buf@ == captured@.subrange(i as int, captured@.len() as int) + old(
                            self,
                        ).buf@,
                        self.stack@ == s0.subrange(0, s0.len() - 1),
                        self.inner@ == old(self).inner@,
                        self.next == old(self).next,
                        self.current_pos == old(self).current_pos,
                    decreases i,
                {
                    i = i - 1;
                    self.buf.push_front(captured[i]);
                    proof {
                        assert(self.buf@ =~= captured@.subrange(i as int, captured@.len() as int)
                            + old(self).buf@);
                    }
                }
                self.current_pos = p;
                proof {
                    assert(self.buf@ =~= self.inner@.subrange(p as int, self.next as int));
                    assert(self@.marks =~= old(self)@.marks.drop_last());
                    assert forall|i: int| 0 <= i < self.stack@.len() implies self.checkpoint_ok(i) by {
                        assert(self.stack@[i] == s0[i]);
                        assert(old(self).checkpoint_ok(i));
                    }
                }
                Ok(p)
            },
        }
    }

    /// Ends the innermost checkpoint and keeps what was read since it was taken.
    /// Returns the position at which it was taken.
    pub fn drop(&mut self) -> (r: Result<usize, PopError>)
        requires
            old(self).wf(),
        ensures
            final(self).wf(),
            final(self)@ == old(self)@.dropped(),
            old(self)@.marks.len() == 0 <==> r == Err::<usize, PopError>(PopError::PopOnEmptyStack),
            old(self)@.marks.len() > 0 ==> r == Ok::<usize, PopError>(old(self)@.marks.last() as usize),
    {
        let ghost s0 = self.stack@;
        let top = self.stack.pop();
        match top {
            None => Err(PopError::PopOnEmptyStack),
            Some(t) => {
                proof {
                    assert(t == s0[s0.len() - 1]);
                    assert(old(self).checkpoint_ok(s0.len() - 1));
                }
                let (p, captured) = t;
                let below = self.stack.pop();
                match below {
                    None => {},
                    Some(b) => {
                        proof {
                            assert(b == s0[s0.len() - 2]);
                            assert(old(self).checkpoint_ok(s0.len() - 2));
                        }
                        let (q, mut outer) = b;
                        let ghost outer0 = outer@;
                        let mut i: usize = 0;
                        while i < captured.len()
                            invariant
                                i <= captured@.len(),
                                outer@ == outer0 + captured@.subrange(0, i as int),
                            decreases captured@.len() - i,
                        {
                            outer.push(captured[i]);
                            i = i + 1;
                            proof {
                                assert(outer@ =~= outer0 + captured@.subrange(0, i as int));
                            }
                        }
                        proof {
                            assert(captured@.subrange(0, captured@.len() as int) =~= captured@);
                            assert(outer@ =~= self.inner@.subrange(
                                q as int,
                                self.current_pos as int,
                            ));
                        }
                        self.stack.push((q, outer));
                    },
                }
                proof {
                    assert(self@.marks =~= old(self)@.marks.drop_last());
                    assert forall|i: int| 0 <= i < self.stack@.len() implies self.checkpoint_ok(i) by {
                        assert(old(self).checkpoint_ok(i));
                        if i + 1 < self.stack@.len() {
                            assert(self.stack@[i] == s0[i]);
                        }
                    }
                }
                Ok(p)
            },
        }
    }

    /// Makes the next item available in the replay buffer without consuming it.
    fn peek(&mut self) -> (r: Option<T>)
        requires
            old(self).wf(),
        ensures
            final(self).wf(),
            final(self)@ == old(self)@,
            r == old(self)@.next_item(),
            final(self).stack@ == old(self).stack@,
            final(self).inner@ == old(self).inner@,
            final(self).current_pos == old(self).current_pos,
            r is Some ==> final(self).current_pos < final(self).next && final(self).buf@.len() > 0
                && final(self).buf@[0] == r->0,
    {
        if self.buf.len() == 0 && self.next < self.inner.len() {
            let x = self.inner[self.next];
            self.buf.push_back(x);
            self.next = self.next + 1;
            proof {
                assert(self.buf@ =~= self.inner@.subrange(
                    self.current_pos as int,
                    self.next as int,
                ));
                assert forall|i: int| 0 <= i < self.stack@.len() implies self.checkpoint_ok(i) by {
                    assert(old(self).checkpoint_ok(i));
                }
            }
        }
        if self.buf.len() > 0 {
            Some(self.buf[0])
        } else {
            None
        }
    }

    /// The item that the next `step` returns, without consuming it.
    pub fn peek_item(&mut self) -> (r: Option<T>)
        requires
            old(self).wf(),
        ensures
            final(self).wf(),
            final(self)@ == old(self)@,
            r == old(self)@.next_item(),
    {
        self.peek()
    }

    /// Returns the next item, from the replay buffer first and then from the
    /// source, and records it in the innermost checkpoint.
    pub fn step(&mut self) -> (r: Option<T>)
        requires
            old(self).wf(),
        ensures
            final(self).wf(),
            final(self)@ == old(self)@.stepped(),
            r == old(self)@.next_item(),
    {
        let first = self.peek();
        match first {
            None => None,
            Some(x) => {
                let ghost s0 = self.stack@;
                let _ = self.buf.pop_front();
                self.current_pos = self.current_pos + 1;
                let top = self.stack.pop();
                match top {
                    None => {},
                    Some(t) => {
                        proof {
                            assert(t == s0[s0.len() - 1]);
                            assert(old(self).checkpoint_ok(s0.len() - 1));
                        }
                        let (p, mut captured) = t;
                        captured.push(x);
                        self.stack.push((p, captured));
                        proof {
                            assert(self.stack@[s0.len() - 1].1@ =~= self.inner@.subrange(
                                p as int,
                                self.current_pos as int,
                            ));
                        }
                    },
                }
                proof {
                    assert(self.buf@ =~= self.inner@.subrange(
                        self.current_pos as int,
                        self.next as int,
                    ));
                    assert(self@.marks =~= old(self)@.marks);
                    assert forall|i: int| 0 <= i < self.stack@.len() implies self.checkpoint_ok(i) by {
                        assert(old(self).checkpoint_ok(i));
                        if i + 1 < self.stack@.len() {
                            assert(self.stack@[i] == s0[i]);
                        }
                    }
                }
                Some(x)
            },
        }
    }

    /// Reads the longest run of items that satisfy `predicate` and returns it.
    /// The first item that fails `predicate` is not consumed: the next `step`
    /// returns it.
    pub fn take_while_ref<P: Fn(T) -> bool>(&mut self, predicate: P) -> (r: Vec<T>)
        requires
            old(self).wf(),
            forall|x: T| predicate.requires((x,)),
        ensures
            final(self).wf(),
            final(self)@ == old(self)@.at(final(self)@.pos),
            old(self)@.pos <= final(self)@.pos <= old(self)@.items.len(),
            r@ == old(self)@.items.subrange(old(self)@.pos as int, final(self)@.pos as int),
            forall|k: int|
                old(self)@.pos <= k < final(self)@.pos ==> predicate.ensures(
                    (old(self)@.items[k],),
                    true,
                ),
            final(self)@.pos < old(self)@.items.len() ==> predicate.ensures(
                (old(self)@.items[final(self)@.pos as int],),
                false,
            ),
    {
        let mut r: Vec<T> = Vec::new();
        let ghost m0 = self@;
        proof {
            self.lemma_wf_model();
        }
        loop
            invariant
                self.wf(),
                self@ == m0.at(self@.pos),
                m0.pos <= self@.pos <= m0.items.len(),
                m0.wf(),
                forall|x: T| predicate.requires((x,)),
                r@ == m0.items.subrange(m0.pos as int, self@.pos as int),
                forall|k: int| m0.pos <= k < self@.pos ==> predicate.ensures((m0.items[k],), true),
            ensures
                self.wf(),
                self@ == m0.at(self@.pos),
                m0.pos <= self@.pos <= m0.items.len(),
                r@ == m0.items.subrange(m0.pos as int, self@.pos as int),
                forall|k: int| m0.pos <= k < self@.pos ==> predicate.ensures((m0.items[k],), true),
                self@.pos < m0.items.len() ==> predicate.ensures(
                    (m0.items[self@.pos as int],),
                    false,
                ),
            decreases m0.items.len() - self@.pos,
        {
            let next = self.peek();
            match next {
                None => {
                    break;
                },
                Some(x) => {
                    if predicate(x) {
                        let _ = self.step();
                        r.push(x);
                        proof {
                            assert(r@ =~= m0.items.subrange(m0.pos as int, self@.pos as int));
                        }
                    } else {
                        break;
                    }
                },
            }
        }
        r
    }

    /// Runs `f` on the stream under a checkpoint. Where `f` gives `Ok`, what it
    /// read is kept and its value is returned; where it gives `Err`, the stream
    /// is rewound to where it was and `None` is returned. `f` takes the stream
    /// and hands it back, over the same items and checkpoints.
    pub fn opt_parse<V, E, F: FnOnce(Self) -> (Self, Result<V, E>)>(self, f: F) -> (r: (
        Self,
        Option<V>,
    ))
        requires
            self.wf(),
            forall|s: Self| s.wf() && s@ == self@.pushed() ==> #[trigger] f.requires((s,)),
            forall|s: Self, out: (Self, Result<V, E>)|
                #[trigger] f.ensures((s,), out) ==> out.0.wf() && out.0@ == s@.at(out.0@.pos),
        ensures
            r.0.wf(),
            exists|s: Self, out: (Self, Result<V, E>)|
                {
                    &&& s@ == self@.pushed()
                    &&& f.ensures((s,), out)
                    &&& match out.1 {
                        Ok(v) => r.1 == Some(v) && r.0@ == self@.at(out.0@.pos),
                        Err(_) => r.1 is None && r.0@ == self@,
                    }
                },
    {
        let mut s = self;
        let ghost m = s@;
        s.push();
        let ghost pushed = s;
        let out = f(s);
        proof {
            assert(f.ensures((pushed,), out));
            assert(out.0.wf() && out.0@ == pushed@.at(out.0@.pos));
        }
        let (mut t, res) = out;
        match res {
            Ok(v) => {
                let _ = t.drop();
                proof {
                    lemma_checkpoint_closed(m, t@.pos);
                }
                (t, Some(v))
            },
            Err(_) => {
                let _ = t.pop();
                proof {
                    lemma_checkpoint_closed(m, t@.pos);
                }
                (t, None)
            },
        }
    }

    /// An error located at the current position.
    pub fn error(&self, message: String) -> (r: ParseError)
        requires
            self.wf(),
        ensures
            r.start == self@.pos,
            r.end == self@.pos,
            r.message@ == message@,
    {
        ParseError { start: self.current_pos, end: self.current_pos, message }
    }
}

} // verus!
