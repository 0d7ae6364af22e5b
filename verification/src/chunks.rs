//! Cutting a stream of items into chunks of a fixed size.

use vstd::prelude::*;
use std::collections::VecDeque;
use vstd::arithmetic::div_mod::{lemma_fundamental_div_mod, lemma_fundamental_div_mod_converse};

verus! {

/// Number of items the next chunk takes from `remaining`.
pub open spec fn next_chunk_len(remaining: nat, chunk_size: nat) -> nat {
    if remaining < chunk_size {
        remaining
    } else {
        chunk_size
    }
}

/// The chunks that `s` is cut into, in order: each holds `n` items but the
/// last, which holds what is left.
pub open spec fn chunks_of<T>(s: Seq<T>, n: nat) -> Seq<Seq<T>>
    decreases s.len(),
{
    if s.len() == 0 || n == 0 {
        Seq::empty()
    } else {
        seq![s.take(next_chunk_len(s.len(), n) as int)] + chunks_of(s.skip(next_chunk_len(s.len(), n) as int), n)
    }
}

/// The items of `chunks`, one chunk after the other.
pub open spec fn concat<T>(chunks: Seq<Seq<T>>) -> Seq<T>
    decreases chunks.len(),
{
    if chunks.len() == 0 {
        Seq::empty()
    } else {
        chunks[0] + concat(chunks.drop_first())
    }
}

/// A source of items handed out in chunks of `chunk_size` items.
pub struct IterChunks<T> {
    inner: VecDeque<T>,
    chunk_size: usize,
    source: Ghost<Seq<T>>,
    handed: Ghost<Seq<Seq<T>>>,
}

impl<T> IterChunks<T> {
    /// Items not handed out yet, in order.
    pub closed spec fn remaining(&self) -> Seq<T> {
        self.inner@
    }

    /// Items per chunk.
    pub closed spec fn size(&self) -> nat {
        self.chunk_size as nat
    }

    /// All the items the chunker was made with.
    pub closed spec fn source(&self) -> Seq<T> {
        self.source@
    }

    /// The chunks handed out so far, in order.
    pub closed spec fn handed_out(&self) -> Seq<Seq<T>> {
        self.handed@
    }

    /// The chunks handed out so far, followed by the chunks of what
    /// remains, are the chunks of the source.
    pub closed spec fn wf(&self) -> bool {
        chunks_of(self.source@, self.chunk_size as nat) == self.handed@ + chunks_of(
            self.inner@,
            self.chunk_size as nat,
        )
    }

    /// Chunks of `chunk_size` items taken from `items`.
    pub fn new(items: VecDeque<T>, chunk_size: usize) -> (r: IterChunks<T>)
        ensures
            r.wf(),
            r.remaining() == items@,
            r.source() == items@,
            r.handed_out() == Seq::<Seq<T>>::empty(),
            r.size() == chunk_size,
    {
        let ghost source = items@;
        let r = IterChunks { inner: items, chunk_size, source: Ghost(source), handed: Ghost(Seq::empty()) };
        assert(Seq::<Seq<T>>::empty() + chunks_of(source, chunk_size as nat) =~= chunks_of(
            source,
            chunk_size as nat,
        ));
        r
    }

    /// The next chunk: the next `chunk_size` items, or all that are left
    /// when fewer remain; `None` when no item is left or `chunk_size` is 0.
    /// Once it gives `None` (with `chunk_size > 0`), the chunks handed out
    /// are the chunks of the source: together they are the source, in
    /// order, and there are `source.len() / chunk_size` of them rounded up.
    pub fn next(&mut self) -> (r: Option<Vec<T>>)
        requires
            old(self).wf(),
        ensures
            final(self).wf(),
            final(self).size() == old(self).size(),
            final(self).source() == old(self).source(),
            ({
                let n = next_chunk_len(old(self).remaining().len(), old(self).size());
                &&& n == 0 ==> r is None && final(self).remaining() == old(self).remaining()
                    && final(self).handed_out() == old(self).handed_out()
                &&& n > 0 ==> (r matches Some(chunk) && chunk@ == old(self).remaining().take(n as int)
                    && final(self).remaining() == old(self).remaining().skip(n as int)
                    && final(self).handed_out() == old(self).handed_out().push(chunk@))
            }),
            r is None && final(self).size() > 0 ==> final(self).handed_out() == chunks_of(
                final(self).source(),
                final(self).size(),
            ) && concat(final(self).handed_out()) == final(self).source() && final(self).handed_out().len()
                == (final(self).source().len() + final(self).size() - 1) / (final(self).size() as int),
    {
        let ghost start = self.inner@;
        let ghost n = next_chunk_len(start.len(), self.chunk_size as nat);
        let ghost size = self.chunk_size;
        let ghost source = self.source@;
        let ghost handed = self.handed@;
        let mut v: Vec<T> = Vec::new();
        while v.len() != self.chunk_size
            invariant
                v.len() <= self.chunk_size,
                self.chunk_size == size,
                self.source@ == source,
                self.handed@ == handed,
                v@.len() <= start.len(),
                v@ == start.take(v@.len() as int),
                self.inner@ == start.skip(v@.len() as int),
                n == next_chunk_len(start.len(), self.chunk_size as nat),
            ensures
                self.chunk_size == size,
                self.source@ == source,
                self.handed@ == handed,
                v@.len() == n,
                v@ == start.take(n as int),
                self.inner@ == start.skip(n as int),
            decreases self.chunk_size - v.len(),
        {
            match self.inner.pop_front() {
                Some(x) => {
                    let ghost k: int = v@.len() as int;
                    v.push(x);
                    assert(v@ =~= start.take(k + 1));
                    assert(self.inner@ =~= start.skip(k + 1));
                },
                None => {
                    break;
                },
            }
        }
        if v.len() == 0 {
            assert(start.skip(0) =~= start);
            proof {
                if size > 0 {
                    assert(chunks_of(start, size as nat) =~= Seq::<Seq<T>>::empty());
                    assert(handed + Seq::<Seq<T>>::empty() =~= handed);
                    lemma_chunks_rebuild(source, size as nat);
                }
            }
            None
        } else {
            proof {
                lemma_next_is_first_chunk(start, size as nat);
                let rest = chunks_of(start.skip(n as int), size as nat);
                assert(chunks_of(start, size as nat) =~= seq![v@] + rest);
                assert(handed + (seq![v@] + rest) =~= handed.push(v@) + rest);
            }
            self.handed = Ghost(self.handed@.push(v@));
            Some(v)
        }
    }
}

/// Law: cutting `s` into chunks of `n > 0` items loses and reorders
/// nothing, every chunk but the last holds exactly `n` items, and there are
/// `s.len() / n` chunks rounded up.
pub proof fn lemma_chunks_rebuild<T>(s: Seq<T>, n: nat)
    requires
        n > 0,
    ensures
        concat(chunks_of(s, n)) == s,
        chunks_of(s, n).len() == (s.len() + n - 1) / (n as int),
        forall|i: int| 0 <= i < chunks_of(s, n).len() - 1 ==> (#[trigger] chunks_of(s, n)[i]).len() == n,
        chunks_of(s, n).len() > 0 ==> 0 < chunks_of(s, n).last().len() <= n,
    decreases s.len(),
{
    if s.len() > 0 {
        let k = next_chunk_len(s.len(), n);
        let rest = s.skip(k as int);
        lemma_chunks_rebuild(rest, n);
        let c = chunks_of(s, n);
        assert(c.drop_first() =~= chunks_of(rest, n));
        assert(s.take(k as int) + rest =~= s);
        assert forall|i: int| 0 <= i < c.len() - 1 implies (#[trigger] c[i]).len() == n by {
            if i > 0 {
                assert(c[i] == chunks_of(rest, n)[i - 1]);
            } else if rest.len() > 0 {
                assert(k == n);
            } else {
                assert(chunks_of(rest, n) =~= Seq::<Seq<T>>::empty());
            }
        }
        if chunks_of(rest, n).len() == 0 {
            assert(c.last() == s.take(k as int));
        } else {
            assert(c.last() == chunks_of(rest, n).last());
        }
        let len = s.len() as int;
        let m = n as int;
        assert(c.len() == 1 + chunks_of(rest, n).len());
        if len <= m {
            lemma_fundamental_div_mod_converse(len + m - 1, m, 1, len - 1);
            assert(chunks_of(rest, n) =~= Seq::<Seq<T>>::empty());
        } else {
            let a = len - 1;
            lemma_fundamental_div_mod(a, m);
            assert(a + m == (a / m + 1) * m + a % m) by (nonlinear_arith)
                requires
                    a == m * (a / m) + a % m,
            ;
            lemma_fundamental_div_mod_converse(a + m, m, a / m + 1, a % m);
            assert(rest.len() == len - m);
            assert(chunks_of(rest, n).len() == a / m);
        }
    } else {
        assert(concat(chunks_of(s, n)) =~= s);
        lemma_fundamental_div_mod_converse(n - 1, n as int, 0, n - 1);
    }
}

/// Law: a call of `next` hands out exactly the first chunk of what
/// remains, and what remains afterwards is cut into the other chunks.
pub proof fn lemma_next_is_first_chunk<T>(remaining: Seq<T>, n: nat)
    requires
        n > 0,
        remaining.len() > 0,
    ensures
        chunks_of(remaining, n)[0] == remaining.take(next_chunk_len(remaining.len(), n) as int),
        chunks_of(remaining, n).drop_first() == chunks_of(
            remaining.skip(next_chunk_len(remaining.len(), n) as int),
            n,
        ),
{
    assert(chunks_of(remaining, n).drop_first() =~= chunks_of(
        remaining.skip(next_chunk_len(remaining.len(), n) as int),
        n,
    ));
}

} // verus!
