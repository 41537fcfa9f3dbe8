//! Reading a ref's log: splitting a log file into its lines, forward or in
//! reverse. The reverse walk never looks at more than a caller-chosen window
//! of bytes at a time, so a large log is never held in memory as a whole.

use vstd::prelude::*;

verus! {

/// The line separator of a log file.
pub const NL: u8 = 10;

/// The lines of `s` when a record `cur` is already half-assembled: records are
/// separated by `NL`, and a final record is yielded even without a trailing
/// separator.
pub open spec fn lines_from(s: Seq<u8>, cur: Seq<u8>) -> Seq<Seq<u8>>
    decreases s.len(),
{
    if s.len() == 0 {
        if cur.len() == 0 {
            Seq::empty()
        } else {
            seq![cur]
        }
    } else if s[0] == NL {
        seq![cur] + lines_from(s.skip(1), Seq::empty())
    } else {
        lines_from(s.skip(1), cur.push(s[0]))
    }
}

/// The lines of a log file `s`, oldest first.
pub open spec fn lines(s: Seq<u8>) -> Seq<Seq<u8>> {
    lines_from(s, Seq::empty())
}

/// Splitting at a separator: the lines of `a + b` are the lines of `a`
/// followed by the lines of `b`, whenever `a` ends at a line boundary.
proof fn lemma_lines_from_append(a: Seq<u8>, b: Seq<u8>, cur: Seq<u8>)
    requires
        a.len() > 0,
        a.last() == NL,
    ensures
        lines_from(a + b, cur) == lines_from(a, cur) + lines_from(b, Seq::empty()),
    decreases a.len(),
{
    assert((a + b)[0] == a[0]);
    assert((a + b).skip(1) =~= a.skip(1) + b);
    if a[0] == NL {
        if a.len() == 1 {
            assert(a.skip(1) =~= Seq::<u8>::empty());
            assert(a.skip(1) + b =~= b);
            assert(lines_from(a, cur) =~= seq![cur]);
            assert(lines_from(a + b, cur) == seq![cur] + lines_from(b, Seq::empty()));
        } else {
            assert(a.skip(1).last() == a.last());
            lemma_lines_from_append(a.skip(1), b, Seq::empty());
            assert(lines_from(a + b, cur) == seq![cur] + (lines_from(a.skip(1), Seq::empty())
                + lines_from(b, Seq::empty())));
            assert(seq![cur] + (lines_from(a.skip(1), Seq::empty()) + lines_from(b, Seq::empty()))
                =~= (seq![cur] + lines_from(a.skip(1), Seq::empty())) + lines_from(
                b,
                Seq::empty(),
            ));
        }
    } else {
        assert(a.skip(1).last() == a.last());
        lemma_lines_from_append(a.skip(1), b, cur.push(a[0]));
    }
}

/// A single separator closes the half-assembled record and nothing more.
proof fn lemma_lines_from_single_nl(cur: Seq<u8>)
    ensures
        lines_from(seq![NL], cur) == seq![cur],
{
    assert(seq![NL][0] == NL);
    assert(seq![NL].skip(1) =~= Seq::<u8>::empty());
    assert(lines_from(Seq::<u8>::empty(), Seq::<u8>::empty()) =~= Seq::<Seq<u8>>::empty());
    assert(seq![cur] + Seq::<Seq<u8>>::empty() =~= seq![cur]);
}

/// A stretch of bytes without a separator is one record: with a separator
/// appended it is exactly one line, and on its own it is one line as long as
/// there is anything in it.
proof fn lemma_lines_from_no_nl(c: Seq<u8>, cur: Seq<u8>)
    requires
        forall|i: int| 0 <= i < c.len() ==> c[i] != NL,
    ensures
        lines_from(c.push(NL), cur) == seq![cur + c],
        c.len() + cur.len() > 0 ==> lines_from(c, cur) == seq![cur + c],
    decreases c.len(),
{
    if c.len() == 0 {
        assert(c.push(NL) =~= seq![NL]);
        assert(cur + c =~= cur);
        lemma_lines_from_single_nl(cur);
    } else {
        assert(c.push(NL)[0] == c[0]);
        assert(c.push(NL).skip(1) =~= c.skip(1).push(NL));
        assert(cur.push(c[0]) + c.skip(1) =~= cur + c);
        lemma_lines_from_no_nl(c.skip(1), cur.push(c[0]));
    }
}

/// Appending a separator to a file whose last byte is no separator does not
/// change its lines.
proof fn lemma_lines_from_push_nl(s: Seq<u8>, cur: Seq<u8>)
    requires
        s.len() > 0,
        s.last() != NL,
    ensures
        lines_from(s.push(NL), cur) == lines_from(s, cur),
    decreases s.len(),
{
    assert(s.push(NL)[0] == s[0]);
    assert(s.push(NL).skip(1) =~= s.skip(1).push(NL));
    if s[0] == NL {
        assert(s.len() >= 2);
        assert(s.skip(1).last() == s.last());
        lemma_lines_from_push_nl(s.skip(1), Seq::empty());
    } else if s.len() == 1 {
        assert(s.skip(1) =~= Seq::<u8>::empty());
        assert(s.skip(1).push(NL) =~= seq![NL]);
        lemma_lines_from_single_nl(cur.push(s[0]));
        assert(lines_from(s.push(NL), cur) == seq![cur.push(s[0])]);
        assert(lines_from(s, cur) == lines_from(Seq::<u8>::empty(), cur.push(s[0])));
        assert(lines_from(s, cur) == seq![cur.push(s[0])]);
    } else {
        assert(s.skip(1).last() == s.last());
        lemma_lines_from_push_nl(s.skip(1), cur.push(s[0]));
    }
}

/// The position of the last separator in `s`, or `-1` if there is none.
pub open spec fn last_nl(s: Seq<u8>) -> int
    decreases s.len(),
{
    if s.len() == 0 {
        -1
    } else if s.last() == NL {
        s.len() - 1
    } else {
        last_nl(s.drop_last())
    }
}

proof fn lemma_last_nl(s: Seq<u8>)
    ensures
        -1 <= last_nl(s) < s.len(),
        last_nl(s) >= 0 ==> s[last_nl(s)] == NL,
        forall|k: int| last_nl(s) < k < s.len() ==> s[k] != NL,
    decreases s.len(),
{
    if s.len() == 0 {
    } else if s.last() == NL {
    } else {
        lemma_last_nl(s.drop_last());
        assert(forall|k: int| 0 <= k < s.len() - 1 ==> s.drop_last()[k] == s[k]);
    }
}

/// The pending lines of the unread prefix `data[..rem]`, read as if a
/// separator followed it, split at the last separator position `j` inside it.
proof fn lemma_pending_split(data: Seq<u8>, rem: int, j: int)
    requires
        0 <= rem <= data.len(),
        0 <= j < rem,
        data[j] == NL,
        forall|k: int| j < k < rem ==> data[k] != NL,
    ensures
        lines(data.take(rem).push(NL)) == lines(data.take(j).push(NL)).push(
            data.subrange(j + 1, rem),
        ),
{
    let line = data.subrange(j + 1, rem);
    let head = data.take(j + 1);
    assert(head.last() == NL);
    assert(data.take(rem).push(NL) =~= head + line.push(NL));
    lemma_lines_from_append(head, line.push(NL), Seq::empty());
    assert(forall|k: int| 0 <= k < line.len() ==> line[k] != NL);
    lemma_lines_from_no_nl(line, Seq::empty());
    assert(Seq::<u8>::empty() + line =~= line);
    assert(data.take(j).push(NL) =~= head);
    assert(lines(head) + seq![line] =~= lines(head).push(line));
}

/// When no separator stands in `data[..rem]`, that whole prefix is the one
/// pending line.
proof fn lemma_pending_no_nl(data: Seq<u8>, rem: int)
    requires
        0 <= rem <= data.len(),
        forall|k: int| 0 <= k < rem ==> data[k] != NL,
    ensures
        lines(data.take(rem).push(NL)) == seq![data.take(rem)],
{
    let c = data.take(rem);
    assert(forall|k: int| 0 <= k < c.len() ==> c[k] != NL);
    lemma_lines_from_no_nl(c, Seq::empty());
    assert(Seq::<u8>::empty() + c =~= c);
}

/// The views of a vector of byte vectors.
pub open spec fn views_of(v: Seq<Vec<u8>>) -> Seq<Seq<u8>> {
    v.map_values(|x: Vec<u8>| x@)
}

/// Splits a fully loaded log into its lines, oldest first. This is the heart
/// of forward iteration, which reads the file once and walks the buffer.
pub fn forward(data: &Vec<u8>) -> (r: Vec<Vec<u8>>)
    ensures
        views_of(r@) == lines(data@),
{
    let ghost full = data@;
    let mut out: Vec<Vec<u8>> = Vec::new();
    let mut cur: Vec<u8> = Vec::new();
    let mut i: usize = 0;
    proof {
        assert(full.skip(0) =~= full);
        assert(views_of(Seq::<Vec<u8>>::empty()) =~= Seq::<Seq<u8>>::empty());
        assert(Seq::<Seq<u8>>::empty() + lines_from(full, Seq::empty()) =~= lines_from(
            full,
            Seq::empty(),
        ));
    }
    while i < data.len()
        invariant
            0 <= i <= data.len(),
            full == data@,
            lines(full) == views_of(out@) + lines_from(full.skip(i as int), cur@),
        decreases data.len() - i,
    {
        let b = data[i];
        proof {
            assert(full.skip(i as int)[0] == full[i as int]);
            assert(full.skip(i as int).skip(1) =~= full.skip(i as int + 1));
        }
        if b == NL {
            let ghost old_out = out@;
            let ghost old_cur = cur@;
            out.push(cur);
            cur = Vec::new();
            proof {
                assert(views_of(out@) =~= views_of(old_out).push(old_cur));
                assert(views_of(old_out).push(old_cur) + lines_from(
                    full.skip(i as int + 1),
                    Seq::empty(),
                ) =~= views_of(old_out) + (seq![old_cur] + lines_from(
                    full.skip(i as int + 1),
                    Seq::empty(),
                )));
            }
        } else {
            cur.push(b);
        }
        i = i + 1;
    }
    proof {
        assert(full.skip(data.len() as int) =~= Seq::<u8>::empty());
    }
    if cur.len() > 0 {
        let ghost old_out = out@;
        let ghost old_cur = cur@;
        out.push(cur);
        proof {
            assert(views_of(out@) =~= views_of(old_out).push(old_cur));
            assert(views_of(old_out) + seq![old_cur] =~= views_of(old_out).push(old_cur));
        }
    } else {
        proof {
            assert(views_of(out@) + Seq::<Seq<u8>>::empty() =~= views_of(out@));
        }
    }
    out
}

/// One step of reverse iteration.
pub enum ReverseItem {
    /// The next line, newest first.
    Line(Vec<u8>),
    /// All lines have been yielded.
    End,
    /// The next line does not fit the window together with its separator:
    /// it cannot be recognised without reading more than one window's worth,
    /// so it is reported instead of being truncated silently.
    LineTooLong,
}

/// Walks the lines of a log from newest to oldest. Only the last `buf_size`
/// bytes of the still unread prefix are ever inspected per step: the window a
/// real reader fills by seeking backward and reading one chunk.
pub struct Reverse {
    data: Vec<u8>,
    buf_size: usize,
    rem: usize,
    done: bool,
}

impl Reverse {
    /// The bytes of the log being walked.
    pub closed spec fn src(self) -> Seq<u8> {
        self.data@
    }

    /// The window size the walker was created with.
    pub closed spec fn window(self) -> int {
        self.buf_size as int
    }

    pub closed spec fn wf(self) -> bool {
        self.rem <= self.data.len()
    }

    /// The lines not yet yielded, oldest first: the unread prefix read as if
    /// a separator closed it.
    pub closed spec fn pending(self) -> Seq<Seq<u8>> {
        if self.done {
            Seq::empty()
        } else {
            lines(self.data@.take(self.rem as int).push(NL))
        }
    }

    /// Takes ownership of the log bytes and positions the walk at the end.
    pub fn new(data: Vec<u8>, buf_size: usize) -> (r: Reverse)
        ensures
            r.wf(),
            r.src() == data@,
            r.window() == buf_size as int,
            r.pending() == lines(data@),
    {
        let ghost full = data@;
        let n = data.len();
        if n == 0 {
            let r = Reverse { data, buf_size, rem: 0, done: true };
            proof {
                assert(lines(full) =~= Seq::<Seq<u8>>::empty());
            }
            r
        } else if data[n - 1] == NL {
            let r = Reverse { data, buf_size, rem: n - 1, done: false };
            proof {
                assert(full.take(n - 1 as int).push(NL) =~= full);
            }
            r
        } else {
            let r = Reverse { data, buf_size, rem: n, done: false };
            proof {
                assert(full.take(n as int) =~= full);
                lemma_lines_from_push_nl(full, Seq::empty());
            }
            r
        }
    }

    /// Yields the newest line not yet returned, stepping the unread prefix
    /// back to the separator before it.
    pub fn next_line(&mut self) -> (r: ReverseItem)
        requires
            old(self).wf(),
        ensures
            final(self).wf(),
            final(self).src() == old(self).src(),
            final(self).window() == old(self).window(),
            match r {
                ReverseItem::Line(l) => old(self).pending().len() > 0 && l@ == old(
                    self,
                ).pending().last() && l@.len() <= old(self).window() && final(self).pending()
                    == old(self).pending().drop_last(),
                ReverseItem::End => old(self).pending().len() == 0 && final(self).pending()
                    == old(self).pending(),
                ReverseItem::LineTooLong => old(self).pending().len() > 0 && old(
                    self,
                ).pending().last().len() >= old(self).window() && final(self).pending().len() == 0,
            },
    {
        if self.done {
            return ReverseItem::End;
        }
        let ghost full = self.data@;
        let rem = self.rem;
        let wlo: usize = if rem > self.buf_size {
            rem - self.buf_size
        } else {
            0
        };
        // Search the window for the last separator before the unread end.
        let mut k: usize = rem;
        let mut found: bool = false;
        while k > wlo && !found
            invariant
                wlo <= k <= rem <= self.data.len(),
                full == self.data@,
                !found ==> forall|t: int| k <= t < rem ==> full[t] != NL,
                found ==> k >= 1 && full[k - 1] == NL && forall|t: int|
                    k <= t < rem ==> full[t] != NL,
            decreases (if found {
                0int
            } else {
                k as int + 1
            }),
        {
            if self.data[k - 1] == NL {
                found = true;
            } else {
                k = k - 1;
            }
        }
        if found {
            let j = k - 1;
            let mut line: Vec<u8> = Vec::new();
            let mut t: usize = j + 1;
            while t < rem
                invariant
                    j + 1 <= t <= rem <= self.data.len(),
                    full == self.data@,
                    line@ == full.subrange(j + 1 as int, t as int),
                decreases rem - t,
            {
                line.push(self.data[t]);
                t = t + 1;
            }
            self.rem = j;
            proof {
                lemma_pending_split(full, rem as int, j as int);
                assert(line@ == full.subrange(j + 1 as int, rem as int));
                assert(old(self).pending().drop_last() =~= lines(
                    full.take(j as int).push(NL),
                ));
            }
            ReverseItem::Line(line)
        } else if wlo == 0 {
            // The unread prefix holds no separator: it is the oldest line.
            let mut line: Vec<u8> = Vec::new();
            let mut t: usize = 0;
            while t < rem
                invariant
                    0 <= t <= rem <= self.data.len(),
                    full == self.data@,
                    line@ == full.subrange(0, t as int),
                decreases rem - t,
            {
                line.push(self.data[t]);
                t = t + 1;
            }
            self.done = true;
            proof {
                lemma_pending_no_nl(full, rem as int);
                assert(line@ == full.take(rem as int));
                assert(seq![full.take(rem as int)].drop_last() =~= Seq::<Seq<u8>>::empty());
            }
            ReverseItem::Line(line)
        } else {
            // No separator in a full window: the next line cannot fit.
            self.done = true;
            proof {
                let prefix = full.take(rem as int);
                lemma_last_nl(prefix);
                let j = last_nl(prefix);
                assert(forall|t: int| 0 <= t < rem ==> prefix[t] == full[t]);
                if j >= 0 {
                    assert(full[j] == NL);
                    assert(j < wlo as int);
                    lemma_pending_split(full, rem as int, j);
                    assert(old(self).pending().last() == full.subrange(j + 1, rem as int));
                } else {
                    lemma_pending_no_nl(full, rem as int);
                    assert(old(self).pending().last() == full.take(rem as int));
                }
            }
            ReverseItem::LineTooLong
        }
    }
}

/// What a completed reverse drain of the log `s` returns: exactly the forward
/// lines, newest first, whatever window size carried the walk.
pub open spec fn drained(s: Seq<u8>, out: Seq<Seq<u8>>) -> bool {
    out == lines(s).reverse()
}

/// Drains a reverse walk over `data` with the given window size. On success
/// the lines come back newest first; when some line cannot fit the window the
/// walk reports it rather than guessing at its boundary.
#[verifier::loop_isolation(false)]
pub fn reverse_lines(data: Vec<u8>, buf_size: usize) -> (r: Result<Vec<Vec<u8>>, ()>)
    ensures
        match r {
            Ok(v) => drained(data@, views_of(v@)),
            Err(()) => exists|i: int|
                0 <= i < lines(data@).len() && #[trigger] lines(data@)[i].len() + 1 > buf_size
                    as int,
        },
{
    let ghost full = data@;
    let mut it = Reverse::new(data, buf_size);
    let mut out: Vec<Vec<u8>> = Vec::new();
    proof {
        assert(it.pending() + views_of(out@).reverse() =~= lines(full));
    }
    loop
        invariant
            it.wf(),
            it.src() == full,
            it.window() == buf_size as int,
            lines(full) == it.pending() + views_of(out@).reverse(),
        decreases it.pending().len(),
    {
        let ghost pend = it.pending();
        let ghost done = views_of(out@);
        match it.next_line() {
            ReverseItem::Line(l) => {
                out.push(l);
                proof {
                    assert(views_of(out@) =~= done.push(l@));
                    assert(views_of(out@).reverse() =~= seq![l@] + done.reverse());
                    assert(pend.drop_last() + (seq![pend.last()] + done.reverse()) =~= pend
                        + done.reverse());
                }
            },
            ReverseItem::End => {
                proof {
                    assert(it.pending() =~= Seq::<Seq<u8>>::empty());
                    assert(Seq::<Seq<u8>>::empty() + views_of(out@).reverse() =~= views_of(
                        out@,
                    ).reverse());
                    assert(lines(full) == views_of(out@).reverse());
                    assert(views_of(out@) =~= lines(full).reverse());
                }
                return Ok(out);
            },
            ReverseItem::LineTooLong => {
                proof {
                    let n = pend.len() as int;
                    assert(lines(full)[n - 1] == pend[n - 1]);
                    assert(pend[n - 1] == pend.last());
                    assert(0 <= n - 1 < lines(full).len() && #[trigger] lines(full)[n
                        - 1].len() + 1 > buf_size as int);
                }
                return Err(());
            },
        }
    }
}

/// Law: reverse iteration yields the exact sequence of forward iteration,
/// reversed, and the two determine one another.
pub proof fn lemma_reverse_is_reversed_forward(s: Seq<u8>, fwd: Seq<Seq<u8>>, rev: Seq<Seq<u8>>)
    requires
        fwd == lines(s),
        drained(s, rev),
    ensures
        rev == fwd.reverse(),
        fwd == rev.reverse(),
{
    assert(fwd.reverse().reverse() =~= fwd);
}

/// Law: the window size does not show in the result. When every line fits
/// each window together with its separator, both drains succeed — a failed
/// drain names a line at least as long as its window — and any two drains of
/// the same log agree element-wise, whatever their window sizes.
pub proof fn lemma_window_size_irrelevant(
    s: Seq<u8>,
    b1: int,
    b2: int,
    out1: Seq<Seq<u8>>,
    out2: Seq<Seq<u8>>,
)
    requires
        forall|i: int| 0 <= i < lines(s).len() ==> #[trigger] lines(s)[i].len() + 1 <= b1,
        forall|i: int| 0 <= i < lines(s).len() ==> #[trigger] lines(s)[i].len() + 1 <= b2,
        drained(s, out1),
        drained(s, out2),
    ensures
        out1 == out2,
{
}

/// A loose ref store: the directory a repository keeps its refs and their
/// logs under.
pub struct Store {
    /// The base directory of the store, as a byte path.
    pub base: Vec<u8>,
}

/// The path fragment between a store's base and a ref's log file.
pub open spec fn logs_dir() -> Seq<u8> {
    seq![47u8, 108u8, 111u8, 103u8, 115u8, 47u8]
}

impl Store {
    /// The file that holds the log of the fully qualified ref `name`:
    /// `<base>/logs/<name>`.
    pub fn reflog_path(&self, name: &Vec<u8>) -> (r: Vec<u8>)
        ensures
            r@ == self.base@ + logs_dir() + name@,
    {
        let mut r: Vec<u8> = Vec::new();
        let mut i: usize = 0;
        while i < self.base.len()
            invariant
                0 <= i <= self.base.len(),
                r@ == self.base@.take(i as int),
            decreases self.base.len() - i,
        {
            r.push(self.base[i]);
            i = i + 1;
        }
        r.push(47);
        r.push(108);
        r.push(111);
        r.push(103);
        r.push(115);
        r.push(47);
        let ghost mid = r@;
        let mut j: usize = 0;
        while j < name.len()
            invariant
                0 <= j <= name.len(),
                r@ == mid + name@.take(j as int),
            decreases name.len() - j,
        {
            r.push(name[j]);
            j = j + 1;
            proof {
                assert(mid + name@.take(j - 1 as int) + seq![name@[j - 1]] =~= mid + name@.take(
                    j as int,
                ));
            }
        }
        proof {
            assert(self.base@.take(self.base.len() as int) =~= self.base@);
            assert(mid =~= self.base@ + logs_dir());
            assert(mid + name@.take(name.len() as int) =~= self.base@ + logs_dir() + name@);
        }
        r
    }
}

} // verus!
