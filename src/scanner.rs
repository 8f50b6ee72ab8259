//! Finding the first occurrence of a marker in a byte stream, one chunk at a time.
//!
//! The scanner keeps back at most `marker.len() - 1` bytes: those that may still
//! turn out to be the start of the marker. Every other byte is handed on as soon
//! as it is seen, so a stream of any length is copied in bounded memory, and the
//! first occurrence is found whatever the marker's own structure.
use vstd::prelude::*;

verus! {

/// `m` occurs in `s` starting at index `i`.
pub open spec fn occurs_at(s: Seq<u8>, m: Seq<u8>, i: int) -> bool {
    0 <= i && i + m.len() <= s.len() && s.subrange(i, i + m.len()) == m
}

/// `m` occurs somewhere in `s`.
pub open spec fn contains_marker(s: Seq<u8>, m: Seq<u8>) -> bool {
    exists|i: int| occurs_at(s, m, i)
}

/// `p` is where the first occurrence of `m` in `s` starts.
pub open spec fn is_first_marker(s: Seq<u8>, m: Seq<u8>, p: int) -> bool {
    &&& occurs_at(s, m, p)
    &&& forall|i: int| 0 <= i < p ==> !occurs_at(s, m, i)
}

/// Where the first occurrence of `m` in `s` starts (meaningful when there is one).
pub open spec fn first_marker(s: Seq<u8>, m: Seq<u8>) -> int {
    choose|p: int| is_first_marker(s, m, p)
}

/// The bytes of `s` before the first occurrence of `m`; all of `s` if there is none.
pub open spec fn before_marker(s: Seq<u8>, m: Seq<u8>) -> Seq<u8> {
    if contains_marker(s, m) {
        s.take(first_marker(s, m))
    } else {
        s
    }
}

/// The bytes of `s` after the first occurrence of `m`; nothing if there is none.
pub open spec fn after_marker(s: Seq<u8>, m: Seq<u8>) -> Seq<u8> {
    if contains_marker(s, m) {
        s.skip(first_marker(s, m) + m.len())
    } else {
        Seq::empty()
    }
}

proof fn lemma_first_at_or_below(s: Seq<u8>, m: Seq<u8>, i: int)
    requires
        occurs_at(s, m, i),
    ensures
        exists|p: int| is_first_marker(s, m, p),
    decreases i,
{
    if exists|j: int| 0 <= j < i && occurs_at(s, m, j) {
        let j = choose|j: int| 0 <= j < i && occurs_at(s, m, j);
        lemma_first_at_or_below(s, m, j);
    } else {
        assert(is_first_marker(s, m, i));
    }
}

/// Where the marker occurs, `first_marker` is its first occurrence.
pub proof fn lemma_first_marker(s: Seq<u8>, m: Seq<u8>)
    requires
        contains_marker(s, m),
    ensures
        is_first_marker(s, m, first_marker(s, m)),
        0 <= first_marker(s, m) <= s.len() - m.len(),
{
    let i = choose|i: int| occurs_at(s, m, i);
    lemma_first_at_or_below(s, m, i);
}

/// A first occurrence is the first occurrence.
pub proof fn lemma_first_marker_unique(s: Seq<u8>, m: Seq<u8>, p: int)
    requires
        is_first_marker(s, m, p),
    ensures
        contains_marker(s, m),
        first_marker(s, m) == p,
{
    assert(occurs_at(s, m, p));
    lemma_first_marker(s, m);
    let q = first_marker(s, m);
    if q < p {
        assert(!occurs_at(s, m, q));
    } else if p < q {
        assert(!occurs_at(s, m, p));
    }
}

/// An occurrence that ends within a prefix is an occurrence in that prefix.
proof fn lemma_occurs_in_prefix(s: Seq<u8>, t: Seq<u8>, m: Seq<u8>, i: int)
    requires
        s.len() <= t.len(),
        t.take(s.len() as int) == s,
        0 <= i,
        i + m.len() <= s.len(),
    ensures
        occurs_at(s, m, i) == occurs_at(t, m, i),
{
    assert(s.subrange(i, i + m.len()) =~= t.subrange(i, i + m.len()));
}

/// The empty marker occurs at the very start of every sequence.
pub proof fn lemma_empty_marker(s: Seq<u8>)
    ensures
        contains_marker(s, Seq::empty()),
        first_marker(s, Seq::empty()) == 0,
        before_marker(s, Seq::empty()) == Seq::<u8>::empty(),
        after_marker(s, Seq::empty()) == s,
{
    let m = Seq::<u8>::empty();
    assert(s.subrange(0, 0) =~= m);
    assert(is_first_marker(s, m, 0));
    lemma_first_marker_unique(s, m, 0);
    assert(s.take(0) =~= m);
    assert(s.skip(0) =~= s);
}

proof fn lemma_extend_chain(o0: Seq<u8>, e0: Seq<u8>, e1: Seq<u8>, e2: Seq<u8>, o1: Seq<u8>, o2: Seq<u8>)
    requires
        e0.len() <= e1.len() <= e2.len(),
        e1.take(e0.len() as int) == e0,
        e2.take(e1.len() as int) == e1,
        o1 == o0 + e1.skip(e0.len() as int),
        o2 == o1 + e2.skip(e1.len() as int),
    ensures
        e2.take(e0.len() as int) == e0,
        o2 == o0 + e2.skip(e0.len() as int),
{
    assert(e2.take(e0.len() as int) =~= e1.take(e0.len() as int));
    assert(e1.skip(e0.len() as int) =~= e2.subrange(e0.len() as int, e1.len() as int));
    assert(o2 =~= o0 + e2.skip(e0.len() as int));
}

/// Whether two byte slices hold the same bytes.
pub(crate) fn same_slice(a: &[u8], b: &[u8]) -> (r: bool)
    ensures
        r == (a@ == b@),
{
    if a.len() != b.len() {
        return false;
    }
    let mut i: usize = 0;
    while i < a.len()
        invariant
            a@.len() == b@.len(),
            i <= a@.len(),
            forall|k: int| 0 <= k < i ==> a@[k] == b@[k],
        decreases a@.len() - i,
    {
        if a[i] != b[i] {
            return false;
        }
        i = i + 1;
    }
    assert(a@ =~= b@);
    true
}

/// A scanner for one marker over one stream, fed a chunk at a time.
pub struct MarkerScanner {
    marker: Vec<u8>,
    /// The last bytes seen, held back because they may begin the marker.
    pending: Vec<u8>,
    found: bool,
    seen: Ghost<Seq<u8>>,
}

impl MarkerScanner {
    /// The marker searched for.
    pub closed spec fn marker(&self) -> Seq<u8> {
        self.marker@
    }

    /// Every byte consumed so far; once the marker is found it ends with it.
    pub closed spec fn seen(&self) -> Seq<u8> {
        self.seen@
    }

    /// Whether the marker has been found.
    pub closed spec fn found(&self) -> bool {
        self.found
    }

    /// The bytes handed on so far.
    pub closed spec fn emitted(&self) -> Seq<u8> {
        if self.found {
            before_marker(self.seen@, self.marker@)
        } else {
            self.seen@.take(self.seen@.len() - self.pending@.len())
        }
    }

    pub closed spec fn wf(&self) -> bool {
        &&& self.marker@.len() > 0
        &&& if self.found {
            &&& self.seen@.len() >= self.marker@.len()
            &&& is_first_marker(self.seen@, self.marker@, self.seen@.len() - self.marker@.len())
        } else {
            &&& self.pending@.len() == if self.seen@.len() < self.marker@.len() - 1 {
                self.seen@.len() as int
            } else {
                self.marker@.len() - 1
            }
            &&& self.pending@ == self.seen@.skip(self.seen@.len() - self.pending@.len())
            &&& !contains_marker(self.seen@, self.marker@)
        }
    }

    /// What a well-formed scanner has established about the bytes seen.
    pub proof fn lemma_state(&self)
        requires
            self.wf(),
        ensures
            self.marker().len() > 0,
            self.found() == contains_marker(self.seen(), self.marker()),
            self.found() ==> first_marker(self.seen(), self.marker()) + self.marker().len()
                == self.seen().len(),
            self.emitted().len() <= before_marker(self.seen(), self.marker()).len(),
            before_marker(self.seen(), self.marker()).take(self.emitted().len() as int)
                == self.emitted(),
    {
        let s = self.seen@;
        let m = self.marker@;
        if self.found {
            lemma_first_marker_unique(s, m, s.len() - m.len());
            assert(before_marker(s, m).take(self.emitted().len() as int) =~= self.emitted());
        } else {
            assert(s.take(self.emitted().len() as int) =~= self.emitted());
        }
    }

    /// A scanner for `marker` that has seen nothing yet.
    pub fn new(marker: &[u8]) -> (r: MarkerScanner)
        requires
            marker@.len() > 0,
        ensures
            r.wf(),
            r.marker() == marker@,
            r.seen() == Seq::<u8>::empty(),
            !r.found(),
            r.emitted() == Seq::<u8>::empty(),
    {
        let mut copy: Vec<u8> = Vec::with_capacity(marker.len());
        let mut i: usize = 0;
        while i < marker.len()
            invariant
                i <= marker@.len(),
                copy@ == marker@.take(i as int),
            decreases marker@.len() - i,
        {
            copy.push(marker[i]);
            i = i + 1;
            assert(copy@ =~= marker@.take(i as int));
        }
        assert(copy@ =~= marker@);
        let r = MarkerScanner {
            marker: copy,
            pending: Vec::new(),
            found: false,
            seen: Ghost(Seq::empty()),
        };
        assert(r.seen@.skip(0) =~= r.pending@);
        assert(!contains_marker(r.seen@, r.marker@));
        assert(r.emitted() =~= Seq::<u8>::empty());
        r
    }

    /// Whether the marker has been found.
    pub fn is_found(&self) -> (r: bool)
        ensures
            r == self.found(),
    {
        self.found
    }

    /// Consumes one byte, appending to `out` what can no longer begin the marker.
    fn push_byte(&mut self, b: u8, out: &mut Vec<u8>)
        requires
            old(self).wf(),
            !old(self).found(),
        ensures
            final(self).wf(),
            final(self).marker() == old(self).marker(),
            final(self).seen() == old(self).seen().push(b),
            old(self).emitted().len() <= final(self).emitted().len(),
            final(self).emitted().take(old(self).emitted().len() as int) == old(self).emitted(),
            final(out)@ == old(out)@ + final(self).emitted().skip(old(self).emitted().len() as int),
    {
        let ghost s0 = self.seen@;
        let ghost p0 = self.pending@;
        let ghost e0 = self.emitted();
        let ghost m = self.marker@;
        let ghost s1 = s0.push(b);
        self.pending.push(b);
        self.seen = Ghost(s1);
        let ghost p1 = self.pending@;
        assert(p1 =~= s1.skip(s1.len() - p1.len()));
        assert forall|i: int| 0 <= i && i + m.len() <= s0.len() implies !occurs_at(s1, m, i) by {
            assert(s1.take(s0.len() as int) =~= s0);
            lemma_occurs_in_prefix(s0, s1, m, i);
        }
        if self.pending.len() == self.marker.len() {
            assert(s1.subrange(s1.len() - m.len(), s1.len() as int) =~= p1);
            if same_slice(self.pending.as_slice(), self.marker.as_slice()) {
                self.found = true;
                assert(is_first_marker(s1, m, s1.len() - m.len()));
                proof {
                    lemma_first_marker_unique(s1, m, s1.len() - m.len());
                }
                assert(self.emitted() =~= e0);
                assert(e0.skip(e0.len() as int) =~= Seq::<u8>::empty());
                assert(e0.take(e0.len() as int) =~= e0);
                assert(out@ =~= old(out)@ + self.emitted().skip(e0.len() as int));
            } else {
                assert(!occurs_at(s1, m, s1.len() - m.len()));
                assert(!contains_marker(s1, m));
                let first = self.pending.remove(0);
                out.push(first);
                assert(self.pending@ =~= s1.skip(s1.len() - self.pending@.len()));
                assert(self.emitted() =~= e0.push(first));
                assert(self.emitted().take(e0.len() as int) =~= e0);
                assert(out@ =~= old(out)@ + self.emitted().skip(e0.len() as int));
            }
        } else {
            assert(!contains_marker(s1, m));
            assert(self.emitted() =~= e0);
            assert(e0.take(e0.len() as int) =~= e0);
            assert(e0.skip(e0.len() as int) =~= Seq::<u8>::empty());
            assert(out@ =~= old(out)@ + self.emitted().skip(e0.len() as int));
        }
    }

    /// Consumes bytes of `chunk` until the marker has been found or the chunk
    /// is used up, appending to `out` every byte that is known to come before
    /// the marker. Returns how many bytes of `chunk` were consumed: where the
    /// marker ends, the rest of the chunk follows it.
    pub fn feed(&mut self, chunk: &[u8], out: &mut Vec<u8>) -> (used: usize)
        requires
            old(self).wf(),
            !old(self).found(),
        ensures
            final(self).wf(),
            final(self).marker() == old(self).marker(),
            final(self).found() == contains_marker(old(self).seen() + chunk@, old(self).marker()),
            final(self).seen() == if final(self).found() {
                (old(self).seen() + chunk@).take(
                    first_marker(old(self).seen() + chunk@, old(self).marker())
                        + old(self).marker().len(),
                )
            } else {
                old(self).seen() + chunk@
            },
            used <= chunk@.len(),
            final(self).seen() == old(self).seen() + chunk@.take(used as int),
            old(self).emitted().len() <= final(self).emitted().len(),
            final(self).emitted().take(old(self).emitted().len() as int) == old(self).emitted(),
            final(out)@ == old(out)@ + final(self).emitted().skip(old(self).emitted().len() as int),
    {
        let ghost s0 = self.seen@;
        let ghost e0 = self.emitted();
        let ghost o0 = out@;
        let ghost m = self.marker@;
        let ghost full = s0 + chunk@;
        let mut i: usize = 0;
        assert(s0 + chunk@.take(0) =~= s0);
        assert(e0.take(e0.len() as int) =~= e0);
        assert(e0.skip(e0.len() as int) =~= Seq::<u8>::empty());
        assert(o0 + Seq::<u8>::empty() =~= o0);
        while i < chunk.len() && !self.found
            invariant
                self.wf(),
                self.marker@ == m,
                i <= chunk@.len(),
                self.seen@ == s0 + chunk@.take(i as int),
                e0.len() <= self.emitted().len(),
                self.emitted().take(e0.len() as int) == e0,
                out@ == o0 + self.emitted().skip(e0.len() as int),
            decreases chunk@.len() - i,
        {
            let ghost e1 = self.emitted();
            let ghost o1 = out@;
            self.push_byte(chunk[i], out);
            i = i + 1;
            assert(self.seen@ =~= s0 + chunk@.take(i as int));
            proof {
                lemma_extend_chain(o0, e0, e1, self.emitted(), o1, out@);
            }
        }
        proof {
            let s = self.seen@;
            assert(full.take(s.len() as int) =~= s);
            if self.found {
                let p = s.len() - m.len();
                assert forall|k: int| 0 <= k < p implies !occurs_at(full, m, k) by {
                    lemma_occurs_in_prefix(s, full, m, k);
                }
                assert(occurs_at(full, m, p)) by {
                    lemma_occurs_in_prefix(s, full, m, p);
                }
                lemma_first_marker_unique(full, m, p);
            } else {
                assert(s =~= full);
            }
        }
        i
    }

    /// At the end of the stream: appends to `out` the bytes still held back,
    /// so that everything before the marker (all of the stream, if it never
    /// came) has been handed on.
    pub fn flush(&self, out: &mut Vec<u8>)
        requires
            self.wf(),
        ensures
            final(out)@ == old(out)@ + before_marker(self.seen(), self.marker()).skip(
                self.emitted().len() as int,
            ),
    {
        proof {
            self.lemma_state();
        }
        if !self.found {
            let mut i: usize = 0;
            while i < self.pending.len()
                invariant
                    i <= self.pending@.len(),
                    out@ == old(out)@ + self.pending@.take(i as int),
                decreases self.pending@.len() - i,
            {
                out.push(self.pending[i]);
                i = i + 1;
                assert(out@ =~= old(out)@ + self.pending@.take(i as int));
            }
            assert(self.pending@.take(i as int) =~= self.pending@);
        } else {
            assert(before_marker(self.seen(), self.marker()).skip(self.emitted().len() as int)
                =~= Seq::<u8>::empty());
            assert(out@ =~= old(out)@ + Seq::<u8>::empty());
        }
    }
}

/// Appends to `output` the bytes of `input` that come before the first
/// occurrence of `seq`, or all of `input` if it never occurs, and returns how
/// many bytes were appended. The bytes of `seq` itself are never written. An
/// empty `seq` is no delimiter: nothing is written for it.
pub fn copy_until_seq(input: &[u8], output: &mut Vec<u8>, seq: &[u8]) -> (n: usize)
    ensures
        final(output)@ == old(output)@ + before_marker(input@, seq@),
        n == before_marker(input@, seq@).len(),
        contains_marker(input@, seq@) && seq@.len() > 0 ==> n < input@.len(),
        !contains_marker(input@, seq@) ==> final(output)@ == old(output)@ + input@,
        seq@.len() == 0 ==> n == 0 && final(output)@ == old(output)@,
{
    if seq.len() == 0 {
        proof {
            assert(seq@ =~= Seq::<u8>::empty());
            lemma_empty_marker(input@);
            assert(old(output)@ + Seq::<u8>::empty() =~= old(output)@);
        }
        return 0;
    }
    let ghost o0 = output@;
    let start: usize = output.len();
    let mut scanner = MarkerScanner::new(seq);
    scanner.feed(input, output);
    scanner.flush(output);
    proof {
        scanner.lemma_state();
        let s = scanner.seen();
        let m = seq@;
        let e = scanner.emitted();
        let b = before_marker(s, m);
        assert(e.skip(0) =~= e);
        assert(output@ =~= o0 + b) by {
            assert(b =~= e + b.skip(e.len() as int));
        }
        if contains_marker(input@, m) {
            lemma_first_marker(input@, m);
            let f = first_marker(input@, m);
            assert(first_marker(s, m) == f);
            assert(b =~= input@.take(f));
        }
        assert(b == before_marker(input@, m));
    }
    output.len() - start
}

} // verus!
