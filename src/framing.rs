use vstd::prelude::*;

verus! {

/// The complete frames found in `s`, in stream order: each ends with the first
/// separator that follows the previous frame.
pub open spec fn frames_of(sep: u8, s: Seq<u8>) -> Seq<Seq<u8>>
    decreases s.len(),
{
    if s.len() == 0 {
        seq![]
    } else if s.last() == sep {
        frames_of(sep, s.drop_last()).push(rest_of(sep, s.drop_last()).push(sep))
    } else {
        frames_of(sep, s.drop_last())
    }
}

/// The bytes of `s` after its last separator: the start of a frame not yet complete.
pub open spec fn rest_of(sep: u8, s: Seq<u8>) -> Seq<u8>
    decreases s.len(),
{
    if s.len() == 0 {
        seq![]
    } else if s.last() == sep {
        seq![]
    } else {
        rest_of(sep, s.drop_last()).push(s.last())
    }
}

/// A frame: it ends with the separator, and the separator occurs nowhere before that.
pub open spec fn is_frame(sep: u8, f: Seq<u8>) -> bool {
    &&& f.len() > 0
    &&& f.last() == sep
    &&& forall|i: int| 0 <= i < f.len() - 1 ==> f[i] != sep
}

/// The byte sequences of a vector of frames.
pub open spec fn frames_view(v: Seq<Vec<u8>>) -> Seq<Seq<u8>> {
    v.map_values(|f: Vec<u8>| f@)
}

/// Bytes `s` hold no separator, so they yield no frame and stay pending as they are.
pub proof fn lemma_no_separator(sep: u8, s: Seq<u8>)
    requires
        !s.contains(sep),
    ensures
        frames_of(sep, s) == Seq::<Seq<u8>>::empty(),
        rest_of(sep, s) == s,
    decreases s.len(),
{
    if s.len() > 0 {
        assert(!s.drop_last().contains(sep)) by {
            if s.drop_last().contains(sep) {
                let i = choose|i: int| 0 <= i < s.drop_last().len() && s.drop_last()[i] == sep;
                assert(s[i] == sep);
            }
        }
        assert(s.last() != sep) by {
            assert(s[s.len() - 1] == s.last());
        }
        lemma_no_separator(sep, s.drop_last());
        assert(s.drop_last().push(s.last()) =~= s);
    }
}

/// What stays pending never holds a separator.
pub proof fn lemma_rest_has_no_separator(sep: u8, s: Seq<u8>)
    ensures
        !rest_of(sep, s).contains(sep),
    decreases s.len(),
{
    if s.len() > 0 && s.last() != sep {
        lemma_rest_has_no_separator(sep, s.drop_last());
        let r = rest_of(sep, s.drop_last());
        if r.push(s.last()).contains(sep) {
            let i = choose|i: int| 0 <= i < r.push(s.last()).len() && r.push(s.last())[i] == sep;
            if i < r.len() {
                assert(r[i] == sep);
            }
        }
    }
}

/// The bytes of `parts` one after another.
pub open spec fn concat(parts: Seq<Seq<u8>>) -> Seq<u8>
    decreases parts.len(),
{
    if parts.len() == 0 {
        seq![]
    } else {
        concat(parts.drop_last()) + parts.last()
    }
}

/// The frames taken out and the bytes left pending after a splitter on `sep`,
/// fresh, has been handed `chunks` one after another through `push_chunk`.
pub open spec fn feed(sep: u8, chunks: Seq<Seq<u8>>) -> (Seq<Seq<u8>>, Seq<u8>)
    decreases chunks.len(),
{
    if chunks.len() == 0 {
        (seq![], seq![])
    } else {
        let (frames, pending) = feed(sep, chunks.drop_last());
        (
            frames + frames_of(sep, pending + chunks.last()),
            rest_of(sep, pending + chunks.last()),
        )
    }
}

/// Splitting `s + t` is splitting `s`, then splitting what `s` left pending followed by `t`.
pub proof fn lemma_split_append(sep: u8, s: Seq<u8>, t: Seq<u8>)
    ensures
        frames_of(sep, s + t) == frames_of(sep, s) + frames_of(sep, rest_of(sep, s) + t),
        rest_of(sep, s + t) == rest_of(sep, rest_of(sep, s) + t),
    decreases t.len(),
{
    let r = rest_of(sep, s);
    if t.len() == 0 {
        lemma_rest_has_no_separator(sep, s);
        lemma_no_separator(sep, r);
        assert(s + t =~= s);
        assert(r + t =~= r);
        assert(frames_of(sep, s) + Seq::<Seq<u8>>::empty() =~= frames_of(sep, s));
    } else {
        let t0 = t.drop_last();
        lemma_split_append(sep, s, t0);
        assert((s + t).drop_last() =~= s + t0);
        assert((r + t).drop_last() =~= r + t0);
        assert((s + t).last() == t.last());
        assert((r + t).last() == t.last());
        if t.last() == sep {
            let x = rest_of(sep, r + t0).push(sep);
            assert((frames_of(sep, s) + frames_of(sep, r + t0)).push(x)
                =~= frames_of(sep, s) + frames_of(sep, r + t0).push(x));
        }
    }
}

/// Handing a fresh splitter the stream in any chunks takes out the same frames,
/// in the same order, and leaves the same bytes pending as handing it the whole
/// stream at once.
pub proof fn lemma_chunking_irrelevant(sep: u8, chunks: Seq<Seq<u8>>)
    ensures
        feed(sep, chunks).0 == frames_of(sep, concat(chunks)),
        feed(sep, chunks).1 == rest_of(sep, concat(chunks)),
    decreases chunks.len(),
{
    if chunks.len() > 0 {
        let init = chunks.drop_last();
        lemma_chunking_irrelevant(sep, init);
        lemma_split_append(sep, concat(init), chunks.last());
    } else {
        assert(frames_of(sep, seq![]) == Seq::<Seq<u8>>::empty());
    }
}

/// The frames of a stream, one after another, followed by what stays pending,
/// give back the stream; each frame ends with the separator and holds it nowhere else.
pub proof fn lemma_frames_partition(sep: u8, s: Seq<u8>)
    ensures
        concat(frames_of(sep, s)) + rest_of(sep, s) == s,
        forall|i: int| 0 <= i < frames_of(sep, s).len() ==> is_frame(sep, #[trigger] frames_of(sep, s)[i]),
    decreases s.len(),
{
    if s.len() == 0 {
        assert(concat(seq![]) + Seq::<u8>::empty() =~= s);
    } else {
        let s0 = s.drop_last();
        lemma_frames_partition(sep, s0);
        let f0 = frames_of(sep, s0);
        let r0 = rest_of(sep, s0);
        if s.last() == sep {
            let x = r0.push(sep);
            let f = f0.push(x);
            assert(f.drop_last() =~= f0);
            assert(concat(f) == concat(f0) + x);
            assert(s0.push(sep) =~= s);
            assert(concat(f0) + x =~= (concat(f0) + r0).push(sep));
            assert(concat(f) + Seq::<u8>::empty() =~= s);
            lemma_rest_has_no_separator(sep, s0);
            assert(is_frame(sep, x)) by {
                assert forall|i: int| 0 <= i < x.len() - 1 implies x[i] != sep by {
                    assert(x[i] == r0[i]);
                }
            }
            assert forall|i: int| 0 <= i < f.len() implies is_frame(sep, #[trigger] f[i]) by {
                if i < f0.len() {
                    assert(f[i] == f0[i]);
                }
            }
        } else {
            assert(s0.push(s.last()) =~= s);
            assert(concat(f0) + r0.push(s.last()) =~= (concat(f0) + r0).push(s.last()));
        }
    }
}

/// A stream without a separator, in any chunks, yields no frame and stays pending whole.
pub proof fn lemma_no_separator_stream(sep: u8, chunks: Seq<Seq<u8>>)
    requires
        !concat(chunks).contains(sep),
    ensures
        feed(sep, chunks).0 == Seq::<Seq<u8>>::empty(),
        feed(sep, chunks).1 == concat(chunks),
{
    lemma_chunking_irrelevant(sep, chunks);
    lemma_no_separator(sep, concat(chunks));
}

/// A splitter of a byte stream into frames ending with a separator byte.
/// It holds the bytes received after the last complete frame.
pub struct FrameSplitter {
    separator: u8,
    pending: Vec<u8>,
}

impl FrameSplitter {
    /// The separator byte.
    pub closed spec fn sep(&self) -> u8 {
        self.separator
    }

    /// The bytes held back until their frame is complete.
    pub closed spec fn pending_bytes(&self) -> Seq<u8> {
        self.pending@
    }

    /// No complete frame is left unscanned.
    pub open spec fn wf(&self) -> bool {
        !self.pending_bytes().contains(self.sep())
    }

    /// A splitter on `separator` with nothing pending.
    pub fn new(separator: u8) -> (r: FrameSplitter)
        ensures
            r.wf(),
            r.sep() == separator,
            r.pending_bytes() == Seq::<u8>::empty(),
    {
        FrameSplitter { separator, pending: Vec::new() }
    }

    /// The separator byte.
    pub fn separator(&self) -> (r: u8)
        ensures
            r == self.sep(),
    {
        self.separator
    }

    /// The bytes held back until their frame is complete.
    pub fn pending(&self) -> (r: &Vec<u8>)
        ensures
            r@ == self.pending_bytes(),
    {
        &self.pending
    }

    /// Appends `chunk` to the pending bytes and takes out every frame that is now
    /// complete, in stream order. What follows the last separator stays pending.
    pub fn push_chunk(&mut self, chunk: &[u8]) -> (frames: Vec<Vec<u8>>)
        requires
            old(self).wf(),
        ensures
            final(self).wf(),
            final(self).sep() == old(self).sep(),
            frames_view(frames@) == frames_of(old(self).sep(), old(self).pending_bytes() + chunk@),
            final(self).pending_bytes() == rest_of(old(self).sep(), old(self).pending_bytes() + chunk@),
    {
        let sep = self.separator;
        let ghost start = self.pending@;
        let mut cur: Vec<u8> = self.pending.clone();
        assert(cur@ =~= start);
        let mut frames: Vec<Vec<u8>> = Vec::new();
        proof {
            lemma_no_separator(sep, start);
            assert(start + chunk@.subrange(0, 0) =~= start);
        }
        let mut i: usize = 0;
        while i < chunk.len()
            invariant
                sep == self.separator,
                0 <= i <= chunk@.len(),
                frames_view(frames@) == frames_of(sep, start + chunk@.subrange(0, i as int)),
                cur@ == rest_of(sep, start + chunk@.subrange(0, i as int)),
            decreases chunk@.len() - i,
        {
            let b = chunk[i];
            let ghost prev = start + chunk@.subrange(0, i as int);
            let ghost next = start + chunk@.subrange(0, i as int + 1);
            assert(next.drop_last() =~= prev);
            assert(next.last() == b);
            if b == sep {
                cur.push(b);
                let ghost done = cur@;
                let ghost before = frames@;
                frames.push(cur);
                cur = Vec::new();
                assert(frames_view(frames@) =~= frames_view(before).push(done));
            } else {
                cur.push(b);
            }
            i = i + 1;
        }
        assert(start + chunk@.subrange(0, chunk@.len() as int) =~= start + chunk@);
        proof {
            lemma_rest_has_no_separator(sep, start + chunk@);
        }
        self.pending = cur;
        frames
    }
}

} // verus!
