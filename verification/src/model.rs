use vstd::prelude::*;
use crate::types::Point;

verus! {

/// Capacity of a `FastBody` ring buffer.
pub const MAX_BODY: usize = 512;

/// `x & 511` is `x % 512`.
pub proof fn lemma_mask_mod(x: usize)
    ensures
        x & 511 == x % 512,
{
    assert(x & 511 == x % 512) by (bit_vector);
}

/// A snake body stored as a fixed-capacity ring buffer, head first.
#[derive(Debug, Clone)]
pub struct FastBody {
    buffer: [Point; 512],
    head_idx: usize,
    len: usize,
}

impl View for FastBody {
    type V = Seq<Point>;

    /// The body segments, head first.
    closed spec fn view(&self) -> Seq<Point> {
        Seq::new(self.len as nat, |i: int| self.buffer[(self.head_idx + i) % 512])
    }
}

impl FastBody {
    /// The ring buffer's indices are in range.
    pub closed spec fn wf(&self) -> bool {
        self.head_idx < 512 && self.len <= 512
    }

    /// A body holding `points` in order.
    pub fn from_points(points: Vec<Point>) -> (b: Self)
        requires
            points@.len() <= 512,
        ensures
            b.wf(),
            b@ == points@,
    {
        Self::from_vec(points.as_slice())
    }

    /// A body holding `v` in order.
    pub fn from_vec(v: &[Point]) -> (b: Self)
        requires
            v@.len() <= 512,
        ensures
            b.wf(),
            b@ == v@,
    {
        let mut buffer = [Point { x: 0, y: 0 }; 512];
        let mut i: usize = 0;
        while i < v.len()
            invariant
                v@.len() <= 512,
                i <= v@.len(),
                forall|k: int| 0 <= k < i ==> #[trigger] buffer[k] == v@[k],
            decreases v@.len() - i,
        {
            buffer[i] = v[i];
            i += 1;
        }
        let b = FastBody { buffer, head_idx: 0, len: v.len() };
        assert(b@ =~= v@);
        b
    }

    /// The head segment; meaningful only for a non-empty body.
    pub fn head(&self) -> (p: Point)
        requires
            self.wf(),
        ensures
            self@.len() > 0 ==> p == self@[0],
    {
        self.buffer[self.head_idx]
    }

    /// Segment `index` counted from the head.
    pub fn get(&self, index: usize) -> (p: Point)
        requires
            self.wf(),
            index < 512,
        ensures
            index < self@.len() ==> p == self@[index as int],
    {
        proof {
            lemma_mask_mod((self.head_idx + index) as usize);
        }
        self.buffer[(self.head_idx + index) & 511]
    }

    /// The tail segment.
    pub fn last(&self) -> (p: Point)
        requires
            self.wf(),
            self@.len() > 0,
        ensures
            p == self@[self@.len() - 1],
    {
        self.get(self.len - 1)
    }

    /// The number of segments.
    pub fn len(&self) -> (n: usize)
        requires
            self.wf(),
        ensures
            n == self@.len(),
            n <= 512,
    {
        self.len
    }

    /// Whether there are no segments.
    pub fn is_empty(&self) -> (b: bool)
        requires
            self.wf(),
        ensures
            b == (self@.len() == 0),
    {
        self.len == 0
    }

    /// The segments, head first.
    pub fn iter(&self) -> (v: Vec<Point>)
        requires
            self.wf(),
        ensures
            v@ == self@,
    {
        let mut v: Vec<Point> = Vec::new();
        let mut i: usize = 0;
        while i < self.len
            invariant
                self.wf(),
                i <= self.len,
                v@ == self@.subrange(0, i as int),
            decreases self.len - i,
        {
            v.push(self.get(i));
            i += 1;
            assert(v@ =~= self@.subrange(0, i as int));
        }
        v
    }

    /// Adds `p` as the new head.
    pub fn push_front(&mut self, p: Point)
        requires
            old(self).wf(),
            old(self)@.len() < 512,
        ensures
            final(self).wf(),
            final(self)@ == seq![p] + old(self)@,
    {
        let h = (self.head_idx.wrapping_sub(1)) & 511;
        proof {
            lemma_mask_mod(self.head_idx.wrapping_sub(1));
            assert(h == (self.head_idx + 511) % 512) by (nonlinear_arith)
                requires
                    h == (if self.head_idx == 0 { usize::MAX as int } else { self.head_idx - 1 }) % 512,
                    self.head_idx < 512,
                    usize::MAX % 512 == 511;
        }
        let ghost oh = self.head_idx as int;
        self.head_idx = h;
        self.buffer[h] = p;
        self.len = self.len + 1;
        proof {
            assert forall|i: int| 0 <= i < self.len implies #[trigger] self@[i] == (seq![p] + old(self)@)[i] by {
                if i > 0 {
                    assert((h + i) % 512 == (oh + (i - 1)) % 512) by (nonlinear_arith)
                        requires h == (oh + 511) % 512, i >= 1;
                    assert((h + i) % 512 != h as int) by (nonlinear_arith)
                        requires 0 < i < 512, h < 512;
                }
            }
            assert(self@ =~= seq![p] + old(self)@);
        }
    }

    /// Drops the head segment.
    pub fn pop_front(&mut self)
        requires
            old(self).wf(),
            old(self)@.len() > 0,
        ensures
            final(self).wf(),
            final(self)@ == old(self)@.drop_first(),
    {
        let h = (self.head_idx + 1) & 511;
        proof {
            lemma_mask_mod((self.head_idx + 1) as usize);
        }
        let ghost oh = self.head_idx as int;
        self.head_idx = h;
        self.len = self.len - 1;
        proof {
            assert forall|i: int| 0 <= i < self.len implies #[trigger] self@[i] == old(self)@.drop_first()[i] by {
                assert((h + i) % 512 == (oh + (i + 1)) % 512) by (nonlinear_arith)
                    requires h == (oh + 1) % 512, i >= 0;
            }
            assert(self@ =~= old(self)@.drop_first());
        }
    }

    /// Drops the tail segment and returns it.
    pub fn pop_back(&mut self) -> (p: Point)
        requires
            old(self).wf(),
            old(self)@.len() > 0,
        ensures
            final(self).wf(),
            p == old(self)@.last(),
            final(self)@ == old(self)@.drop_last(),
    {
        let p = self.last();
        self.len = self.len - 1;
        assert(self@ =~= old(self)@.drop_last());
        p
    }

    /// Adds `p` as the new tail.
    pub fn push_back(&mut self, p: Point)
        requires
            old(self).wf(),
            old(self)@.len() < 512,
        ensures
            final(self).wf(),
            final(self)@ == old(self)@.push(p),
    {
        let t = (self.head_idx + self.len) & 511;
        proof {
            lemma_mask_mod((self.head_idx + self.len) as usize);
        }
        let ghost ol = self.len as int;
        self.buffer[t] = p;
        self.len = self.len + 1;
        proof {
            assert forall|i: int| 0 <= i < self.len implies #[trigger] self@[i] == old(self)@.push(p)[i] by {
                if i < ol {
                    let hh = self.head_idx as int;
                    assert((hh + i) % 512 != t as int) by (nonlinear_arith)
                        requires t == (hh + ol) % 512, 0 <= i < ol, ol < 512, 0 <= hh;
                }
            }
            assert(self@ =~= old(self)@.push(p));
        }
    }
}

/// Pushing a new head and then dropping it restores the body, and so does dropping the tail and
/// pushing it back: the make and unmake steps of a search move undo each other.
pub proof fn lemma_body_moves_undo(body: Seq<Point>, head: Point)
    ensures
        (seq![head] + body).drop_first() == body,
        body.len() > 0 ==> body.drop_last().push(body.last()) == body,
{
    assert((seq![head] + body).drop_first() =~= body);
    if body.len() > 0 {
        assert(body.drop_last().push(body.last()) =~= body);
    }
}

/// One side of a search: its body and health.
#[derive(Debug, Clone)]
pub struct AgentState {
    pub body: FastBody,
    pub health: i32,
}

/// Per-search scratch state: a generation counter that never yields zero.
#[derive(Debug, Clone)]
pub struct SearchBuffers {
    pub current_gen: u16,
}

impl SearchBuffers {
    /// Fresh buffers; the size hint is not needed by this representation.
    pub fn new(_size: usize) -> (b: Self)
        ensures
            b.current_gen == 0,
    {
        SearchBuffers { current_gen: 0 }
    }

    /// Prepares adjacency data for a board size; nothing is cached in this representation.
    pub fn ensure_adj(&mut self, _width: i32, _height: i32)
        ensures
            *final(self) == *old(self),
    {
    }

    /// Advances the generation, skipping zero, and returns it.
    pub fn next_gen(&mut self) -> (g: u16)
        ensures
            g == final(self).current_gen,
            g != 0,
            old(self).current_gen < u16::MAX ==> g == old(self).current_gen + 1,
            old(self).current_gen == u16::MAX ==> g == 1,
    {
        self.current_gen = self.current_gen.wrapping_add(1);
        if self.current_gen == 0 {
            self.current_gen = 1;
        }
        self.current_gen
    }
}

} // verus!
