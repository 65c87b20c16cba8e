//! Frame assembler: turns an arbitrarily chunked byte stream into the
//! sequence of newline-terminated lines it contains, decoded as text and
//! trimmed of trailing whitespace, while keeping the in-flight buffer
//! below a fixed ceiling.

use vstd::prelude::*;
use vstd::utf8::{decode_utf8, valid_utf8};

use crate::text::{bytes_range, bytes_to_string};

verus! {

/// Whitespace bytes: space, tab, carriage return, line feed.
pub open spec fn is_ws_byte(b: u8) -> bool {
    b == 32 || b == 9 || b == 13 || b == 10
}

/// True when the sequence holds a line-feed byte.
pub open spec fn has_nl(s: Seq<u8>) -> bool {
    exists|i: int| 0 <= i < s.len() && s[i] == 10
}

/// The complete (newline-terminated) lines of `s`, without their
/// terminators, in order.
pub open spec fn raw_lines(s: Seq<u8>) -> Seq<Seq<u8>>
    decreases s.len(),
{
    if s.len() == 0 {
        Seq::empty()
    } else if s[0] == 10 {
        seq![Seq::<u8>::empty()] + raw_lines(s.drop_first())
    } else {
        let rest = raw_lines(s.drop_first());
        if rest.len() == 0 {
            Seq::empty()
        } else {
            seq![seq![s[0]] + rest[0]] + rest.drop_first()
        }
    }
}

/// The bytes of `s` after its last line feed: the unterminated tail.
pub open spec fn tail_bytes(s: Seq<u8>) -> Seq<u8>
    decreases s.len(),
{
    if s.len() == 0 {
        s
    } else if has_nl(s) {
        tail_bytes(s.drop_first())
    } else {
        s
    }
}

/// `s` with trailing whitespace bytes removed.
pub open spec fn trim_end(s: Seq<u8>) -> Seq<u8>
    decreases s.len(),
{
    if s.len() > 0 && is_ws_byte(s.last()) {
        trim_end(s.drop_last())
    } else {
        s
    }
}

/// A raw line is yielded when, after trimming, it is non-empty and is
/// valid UTF-8; otherwise it is silently dropped.
pub open spec fn keep_line(r: Seq<u8>) -> bool {
    trim_end(r).len() > 0 && valid_utf8(trim_end(r))
}

/// The text of a kept raw line.
pub open spec fn line_text(r: Seq<u8>) -> Seq<char> {
    decode_utf8(trim_end(r))
}

/// The lines the assembler yields for a sequence of raw lines: each one
/// trimmed and decoded, empty and undecodable ones dropped.
pub open spec fn processed(rs: Seq<Seq<u8>>) -> Seq<Seq<char>>
    decreases rs.len(),
{
    if rs.len() == 0 {
        Seq::empty()
    } else if keep_line(rs[0]) {
        seq![line_text(rs[0])] + processed(rs.drop_first())
    } else {
        processed(rs.drop_first())
    }
}

/// A byte stream with no line feed holds no complete line and is all tail.
pub proof fn lemma_no_nl(s: Seq<u8>)
    requires
        !has_nl(s),
    ensures
        raw_lines(s) == Seq::<Seq<u8>>::empty(),
        tail_bytes(s) == s,
    decreases s.len(),
{
    if s.len() > 0 {
        assert(s[0] != 10);
        assert(!has_nl(s.drop_first())) by {
            if has_nl(s.drop_first()) {
                let i = choose|i: int| 0 <= i < s.drop_first().len() && s.drop_first()[i] == 10;
                assert(s[i + 1] == 10);
            }
        }
        lemma_no_nl(s.drop_first());
    }
}

/// A byte stream with a line feed holds at least one complete line.
pub proof fn lemma_has_nl(s: Seq<u8>)
    requires
        has_nl(s),
    ensures
        raw_lines(s).len() >= 1,
    decreases s.len(),
{
    let i = choose|i: int| 0 <= i < s.len() && s[i] == 10;
    assert(s.len() > 0);
    if s[0] != 10 {
        assert(i != 0);
        assert(s.drop_first()[i - 1] == 10);
        assert(has_nl(s.drop_first()));
        lemma_has_nl(s.drop_first());
    }
}

/// Splitting at the first line feed peels off exactly one complete line.
pub proof fn lemma_split_first(s: Seq<u8>, i: int)
    requires
        0 <= i < s.len(),
        s[i] == 10,
        forall|j: int| 0 <= j < i ==> s[j] != 10,
    ensures
        raw_lines(s) == seq![s.subrange(0, i)] + raw_lines(s.subrange(i + 1, s.len() as int)),
        tail_bytes(s) == tail_bytes(s.subrange(i + 1, s.len() as int)),
    decreases i,
{
    assert(has_nl(s));
    if i == 0 {
        assert(s.subrange(0, 0) =~= Seq::<u8>::empty());
        assert(s.subrange(1, s.len() as int) =~= s.drop_first());
    } else {
        let s1 = s.drop_first();
        assert(s1[i - 1] == 10);
        assert(forall|j: int| 0 <= j < i - 1 ==> s1[j] == s[j + 1] && s1[j] != 10);
        lemma_split_first(s1, i - 1);
        assert(has_nl(s1)) by {
            assert(s1[i - 1] == 10);
        }
        lemma_has_nl(s1);
        assert(s1.subrange(0, i - 1) =~= s.subrange(1, i));
        assert(s1.subrange(i, s1.len() as int) =~= s.subrange(i + 1, s.len() as int));
        let rest = raw_lines(s1);
        assert(rest[0] == s.subrange(1, i));
        assert(seq![s[0]] + s.subrange(1, i) =~= s.subrange(0, i));
        assert(raw_lines(s) =~= seq![s.subrange(0, i)] + raw_lines(
            s.subrange(i + 1, s.len() as int),
        ));
    }
}

/// Processing distributes over appending one raw line.
pub proof fn lemma_processed_push(rs: Seq<Seq<u8>>, r: Seq<u8>)
    ensures
        processed(rs + seq![r]) == processed(rs) + if keep_line(r) {
            seq![line_text(r)]
        } else {
            Seq::<Seq<char>>::empty()
        },
    decreases rs.len(),
{
    let whole = rs + seq![r];
    if rs.len() == 0 {
        assert(whole[0] == r);
        assert(whole.drop_first() =~= Seq::<Seq<u8>>::empty());
        assert(processed(Seq::<Seq<u8>>::empty()) =~= Seq::<Seq<char>>::empty());
        assert(processed(rs) =~= Seq::<Seq<char>>::empty());
        if keep_line(r) {
            assert(processed(whole) =~= seq![line_text(r)] + Seq::<Seq<char>>::empty());
            assert(processed(whole) =~= processed(rs) + seq![line_text(r)]);
        } else {
            assert(processed(whole) =~= processed(rs));
        }
    } else {
        assert(whole[0] == rs[0]);
        assert(whole.drop_first() =~= rs.drop_first() + seq![r]);
        lemma_processed_push(rs.drop_first(), r);
        if keep_line(r) {
            assert(processed(whole) =~= processed(rs) + seq![line_text(r)]);
        } else {
            assert(processed(whole) =~= processed(rs));
        }
    }
}

/// Processing distributes over concatenation of raw-line sequences.
pub proof fn lemma_processed_append(xs: Seq<Seq<u8>>, ys: Seq<Seq<u8>>)
    ensures
        processed(xs + ys) == processed(xs) + processed(ys),
    decreases xs.len(),
{
    if xs.len() == 0 {
        assert(xs + ys =~= ys);
        assert(processed(xs + ys) =~= processed(xs) + processed(ys));
    } else {
        assert((xs + ys)[0] == xs[0]);
        assert((xs + ys).drop_first() =~= xs.drop_first() + ys);
        lemma_processed_append(xs.drop_first(), ys);
        if keep_line(xs[0]) {
            assert(processed(xs + ys) =~= processed(xs) + processed(ys));
        } else {
            assert(processed(xs + ys) =~= processed(xs) + processed(ys));
        }
    }
}

/// Framing is deterministic under chunking: feeding `a` and then `b`
/// yields the same complete lines and the same tail as feeding `a + b`
/// in one piece. Applied repeatedly, any chunking of a byte sequence
/// yields the same lines in the same order as the whole sequence at once.
pub proof fn lemma_framing_deterministic(a: Seq<u8>, b: Seq<u8>)
    ensures
        raw_lines(a + b) == raw_lines(a) + raw_lines(tail_bytes(a) + b),
        tail_bytes(a + b) == tail_bytes(tail_bytes(a) + b),
    decreases a.len(),
{
    if a.len() == 0 {
        assert(a + b =~= b);
        assert(tail_bytes(a) + b =~= b);
        assert(raw_lines(a) + raw_lines(b) =~= raw_lines(b));
    } else if !has_nl(a) {
        lemma_no_nl(a);
        assert(tail_bytes(a) + b =~= a + b);
        assert(raw_lines(a) + raw_lines(a + b) =~= raw_lines(a + b));
    } else {
        let a1 = a.drop_first();
        assert((a + b).drop_first() =~= a1 + b);
        lemma_framing_deterministic(a1, b);
        if a[0] == 10 {
            assert(tail_bytes(a) == tail_bytes(a1));
            assert(raw_lines(a) == seq![Seq::<u8>::empty()] + raw_lines(a1));
            assert(has_nl(a + b)) by {
                assert((a + b)[0] == 10);
            }
            assert(raw_lines(a + b) == seq![Seq::<u8>::empty()] + raw_lines(a1 + b));
            assert(raw_lines(a) + raw_lines(tail_bytes(a) + b) =~= seq![Seq::<u8>::empty()]
                + (raw_lines(a1) + raw_lines(tail_bytes(a1) + b)));
            assert(tail_bytes(a + b) == tail_bytes(a1 + b));
        } else {
            // a[0] != 10 and a has a newline, so a1 has one too.
            assert(has_nl(a1)) by {
                let i = choose|i: int| 0 <= i < a.len() && a[i] == 10;
                assert(a1[i - 1] == 10);
            }
            assert(has_nl(a1 + b)) by {
                let i = choose|i: int| 0 <= i < a1.len() && a1[i] == 10;
                assert((a1 + b)[i] == 10);
            }
            lemma_has_nl(a1);
            lemma_has_nl(a1 + b);
            assert(tail_bytes(a) == tail_bytes(a1));
            assert(has_nl(a + b)) by {
                let i = choose|i: int| 0 <= i < a.len() && a[i] == 10;
                assert((a + b)[i] == 10);
            }
            let rest = raw_lines(a1 + b);
            let ra1 = raw_lines(a1);
            // rest == ra1 + raw_lines(tail_bytes(a1) + b), ra1 nonempty
            assert(rest[0] == ra1[0]);
            assert(raw_lines(a + b) == seq![seq![a[0]] + rest[0]] + rest.drop_first());
            assert(raw_lines(a) == seq![seq![a[0]] + ra1[0]] + ra1.drop_first());
            assert(rest.drop_first() =~= ra1.drop_first() + raw_lines(tail_bytes(a1) + b));
            assert(raw_lines(a + b) =~= raw_lines(a) + raw_lines(tail_bytes(a) + b));
            assert(tail_bytes(a + b) == tail_bytes(a1 + b));
        }
    }
}

/// The unterminated tail never holds a terminator.
pub proof fn lemma_tail_no_nl(s: Seq<u8>)
    ensures
        !has_nl(tail_bytes(s)),
    decreases s.len(),
{
    if s.len() == 0 {
    } else if has_nl(s) {
        lemma_tail_no_nl(s.drop_first());
    }
}

/// The raw lines and the tail after feeding the chunks of `chunks` one
/// by one into a buffer holding `buf`, when no overflow intervenes.
pub open spec fn run_chunks(buf: Seq<u8>, chunks: Seq<Seq<u8>>) -> (Seq<Seq<u8>>, Seq<u8>)
    decreases chunks.len(),
{
    if chunks.len() == 0 {
        (Seq::empty(), buf)
    } else {
        let first = raw_lines(buf + chunks[0]);
        let rest = run_chunks(tail_bytes(buf + chunks[0]), chunks.drop_first());
        (first + rest.0, rest.1)
    }
}

/// All the chunks, joined.
pub open spec fn concat_chunks(chunks: Seq<Seq<u8>>) -> Seq<u8>
    decreases chunks.len(),
{
    if chunks.len() == 0 {
        Seq::empty()
    } else {
        chunks[0] + concat_chunks(chunks.drop_first())
    }
}

/// Framing determinism in full: feeding any sequence of chunks yields
/// the same raw lines, in the same order, and the same tail as feeding
/// their concatenation in one piece. This is the model the assembler's
/// `feed` is specified against, so as long as no overflow discards the
/// buffer, the chunking of the stream is unobservable.
pub proof fn lemma_chunking_deterministic(buf: Seq<u8>, chunks: Seq<Seq<u8>>)
    requires
        !has_nl(buf),
    ensures
        run_chunks(buf, chunks) == (
            raw_lines(buf + concat_chunks(chunks)),
            tail_bytes(buf + concat_chunks(chunks)),
        ),
    decreases chunks.len(),
{
    if chunks.len() == 0 {
        lemma_no_nl(buf);
        assert(buf + concat_chunks(chunks) =~= buf);
    } else {
        let c0 = chunks[0];
        let rest = chunks.drop_first();
        let b1 = tail_bytes(buf + c0);
        lemma_tail_no_nl(buf + c0);
        lemma_chunking_deterministic(b1, rest);
        lemma_framing_deterministic(buf + c0, concat_chunks(rest));
        assert(buf + concat_chunks(chunks) =~= (buf + c0) + concat_chunks(rest));
        assert(run_chunks(buf, chunks).0 =~= raw_lines(buf + concat_chunks(chunks)));
        assert(run_chunks(buf, chunks).1 =~= tail_bytes(buf + concat_chunks(chunks)));
    }
}

/// Bounded memory: a byte sequence with no terminator yields no line and
/// stays whole in the tail, so when it exceeds the ceiling the assembler
/// clears its buffer and emits nothing.
pub proof fn lemma_unterminated_yields_nothing(data: Seq<u8>)
    requires
        !has_nl(data),
    ensures
        processed(raw_lines(data)) == Seq::<Seq<char>>::empty(),
        tail_bytes(data) == data,
{
    lemma_no_nl(data);
}

/// Index of the first line-feed byte of `v`, if any.
fn find_newline(v: &Vec<u8>) -> (r: Option<usize>)
    ensures
        match r {
            Some(i) => 0 <= i < v@.len() && v@[i as int] == 10 && forall|j: int|
                0 <= j < i ==> v@[j] != 10,
            None => !has_nl(v@),
        },
{
    let n = v.len();
    let mut i: usize = 0;
    while i < n
        invariant
            0 <= i <= n == v@.len(),
            forall|j: int| 0 <= j < i ==> v@[j] != 10,
        decreases n - i,
    {
        if v[i] == 10 {
            return Some(i);
        }
        i += 1;
    }
    None
}

/// Removes trailing whitespace bytes.
fn trim_end_bytes(v: Vec<u8>) -> (r: Vec<u8>)
    ensures
        r@ == trim_end(v@),
{
    let mut w = v;
    loop
        invariant
            trim_end(w@) == trim_end(v@),
        decreases w@.len(),
    {
        let n = w.len();
        if n == 0 {
            proof {
                assert(trim_end(w@) == w@);
            }
            return w;
        }
        let last = w[n - 1];
        if last == 32 || last == 9 || last == 13 || last == 10 {
            proof {
                assert(w@.last() == last);
                assert(is_ws_byte(w@.last()));
                assert(trim_end(w@) == trim_end(w@.drop_last()));
            }
            w.pop();
        } else {
            proof {
                assert(!is_ws_byte(w@.last()));
                assert(trim_end(w@) == w@);
            }
            return w;
        }
    }
}

/// Reassembles newline-terminated lines from successive byte chunks.
///
/// The buffer holds the bytes after the last terminator seen so far; it
/// never holds a terminator between calls, and when it outgrows the
/// ceiling without a terminator it is discarded whole.
pub struct FrameAssembler {
    buf: Vec<u8>,
    limit: usize,
}

impl FrameAssembler {
    /// The bytes buffered while waiting for a terminator.
    pub closed spec fn buffered(&self) -> Seq<u8> {
        self.buf@
    }

    /// The ceiling on the buffered bytes.
    pub closed spec fn ceiling(&self) -> usize {
        self.limit
    }

    /// Between calls the buffer never holds a terminator.
    pub open spec fn wf(&self) -> bool {
        !has_nl(self.buffered())
    }

    pub fn new(limit: usize) -> (r: Self)
        ensures
            r.buffered() == Seq::<u8>::empty(),
            r.ceiling() == limit,
            r.wf(),
    {
        let r = FrameAssembler { buf: Vec::new(), limit };
        proof {
            assert(!has_nl(r.buf@));
        }
        r
    }

    /// How many bytes are currently buffered.
    pub fn buffered_len(&self) -> (r: usize)
        ensures
            r == self.buffered().len(),
    {
        self.buf.len()
    }

    /// Feeds one chunk; returns the completed lines, in order, and whether
    /// the buffer overflowed the ceiling and was discarded.
    pub fn feed(&mut self, chunk: &[u8]) -> (r: (Vec<String>, bool))
        requires
            old(self).wf(),
        ensures
            final(self).wf(),
            final(self).ceiling() == old(self).ceiling(),
            r.0@.map_values(|l: String| l@) == processed(
                raw_lines(old(self).buffered() + chunk@),
            ),
            r.1 == (tail_bytes(old(self).buffered() + chunk@).len() > old(self).ceiling()),
            final(self).buffered() == if r.1 {
                Seq::<u8>::empty()
            } else {
                tail_bytes(old(self).buffered() + chunk@)
            },
    {
        self.buf.extend_from_slice(chunk);
        let ghost data = self.buf@;
        proof {
            assert(data =~= old(self).buffered() + chunk@);
        }
        let mut out: Vec<String> = Vec::new();
        let ghost mut done: Seq<Seq<u8>> = Seq::empty();
        proof {
            assert(raw_lines(data) =~= done + raw_lines(self.buf@));
            assert(out@.map_values(|l: String| l@) =~= processed(done));
        }
        loop
            invariant
                raw_lines(data) == done + raw_lines(self.buf@),
                tail_bytes(data) == tail_bytes(self.buf@),
                out@.map_values(|l: String| l@) == processed(done),
                self.limit == old(self).ceiling(),
            ensures
                raw_lines(data) == done + raw_lines(self.buf@),
                tail_bytes(data) == tail_bytes(self.buf@),
                out@.map_values(|l: String| l@) == processed(done),
                self.limit == old(self).ceiling(),
                !has_nl(self.buf@),
            decreases self.buf@.len(),
        {
            let i = match find_newline(&self.buf) {
                None => { break ; },
                Some(i) => i,
            };
            let ghost cur = self.buf@;
            let buflen = self.buf.len();
            proof {
                assert(i < buflen);
            }
            let line: Vec<u8> = bytes_range(self.buf.as_slice(), 0, i);
            let rest: Vec<u8> = bytes_range(self.buf.as_slice(), i + 1, buflen);
            self.buf = rest;
            let ghost lineview = cur.subrange(0, i as int);
            proof {
                lemma_split_first(cur, i as int);
                lemma_processed_push(done, lineview);
                assert(done.push(lineview) =~= done + seq![lineview]);
                assert(raw_lines(data) =~= done.push(lineview) + raw_lines(self.buf@));
            }
            let t = trim_end_bytes(line);
            let ghost tview = t@;
            if t.len() > 0 {
                match bytes_to_string(t) {
                    Some(s) => {
                        proof {
                            assert(keep_line(lineview));
                            assert(s@ == line_text(lineview));
                        }
                        out.push(s);
                        proof {
                            assert(out@.map_values(|l: String| l@) =~= processed(done) + seq![
                                line_text(lineview),
                            ]);
                        }
                    },
                    None => {
                        proof {
                            assert(!keep_line(lineview));
                        }
                    },
                }
            } else {
                proof {
                    assert(!keep_line(lineview));
                }
            }
            proof {
                done = done.push(lineview);
            }
        }
        proof {
            lemma_no_nl(self.buf@);
            assert(done =~= raw_lines(data));
        }
        let overflow = self.buf.len() > self.limit;
        if overflow {
            self.buf = Vec::new();
            proof {
                assert(!has_nl(self.buf@));
            }
        }
        (out, overflow)
    }
}

} // verus!
