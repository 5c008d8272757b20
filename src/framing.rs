//! Newline framing of chat text. Bytes after the last newline of a read are
//! held over and completed by later reads, so a line split across reads is
//! delivered whole. Empty lines carry nothing and are skipped, and a line that
//! is not UTF-8 is dropped on its own while the connection goes on.
use vstd::prelude::*;
use vstd::utf8::{decode_utf8, valid_utf8};

use crate::protocol::{decode_text, NEWLINE};

verus! {

/// Splits a byte stream into its complete lines (without their newline) and
/// the bytes after the last newline, which no newline has ended yet.
pub open spec fn split_lines(s: Seq<u8>) -> (Seq<Seq<u8>>, Seq<u8>)
    decreases s.len(),
{
    if s.len() == 0 {
        (seq![], seq![])
    } else {
        let (lines, rest) = split_lines(s.drop_last());
        if s.last() == NEWLINE {
            (lines.push(rest), seq![])
        } else {
            (lines, rest.push(s.last()))
        }
    }
}

/// The chat messages that complete lines carry: each non-empty line that is
/// valid UTF-8, decoded, in stream order.
pub open spec fn messages_of(lines: Seq<Seq<u8>>) -> Seq<Seq<char>>
    decreases lines.len(),
{
    if lines.len() == 0 {
        seq![]
    } else {
        let earlier = messages_of(lines.drop_last());
        let line = lines.last();
        if line.len() > 0 && valid_utf8(line) {
            earlier.push(decode_utf8(line))
        } else {
            earlier
        }
    }
}

/// The text of a list of strings.
pub open spec fn texts(v: Seq<String>) -> Seq<Seq<char>> {
    v.map_values(|s: String| s@)
}

/// Whether `s` holds no newline.
pub open spec fn no_newline(s: Seq<u8>) -> bool {
    forall|i: int| 0 <= i < s.len() ==> s[i] != NEWLINE
}

/// What follows the last newline holds no newline, and a stream without a
/// newline is all held over.
proof fn lemma_rest_has_no_newline(s: Seq<u8>)
    ensures
        no_newline(split_lines(s).1),
        no_newline(s) ==> split_lines(s) == (Seq::<Seq<u8>>::empty(), s),
    decreases s.len(),
{
    if s.len() > 0 {
        let front = s.drop_last();
        lemma_rest_has_no_newline(front);
        if no_newline(s) {
            assert(no_newline(front)) by {
                assert forall|i: int| 0 <= i < front.len() implies front[i] != NEWLINE by {
                    assert(front[i] == s[i]);
                }
            }
            assert(s[s.len() - 1] != NEWLINE);
            assert(front.push(s.last()) =~= s);
        }
        let r = split_lines(s).1;
        if s.last() != NEWLINE {
            let rf = split_lines(front).1;
            assert forall|i: int| 0 <= i < r.len() implies r[i] != NEWLINE by {
                if i < rf.len() {
                    assert(r[i] == rf[i]);
                }
            }
        }
    }
}

/// Splitting `x + y` is splitting `x`, then splitting what `x` held over
/// followed by `y`.
proof fn lemma_split_append(x: Seq<u8>, y: Seq<u8>)
    ensures
        split_lines(x + y) == (
            split_lines(x).0 + split_lines(split_lines(x).1 + y).0,
            split_lines(split_lines(x).1 + y).1,
        ),
    decreases y.len(),
{
    let (lx, rx) = split_lines(x);
    if y.len() == 0 {
        lemma_rest_has_no_newline(x);
        lemma_rest_has_no_newline(rx);
        assert(x + y =~= x);
        assert(rx + y =~= rx);
        assert(lx + Seq::<Seq<u8>>::empty() =~= lx);
    } else {
        let yf = y.drop_last();
        lemma_split_append(x, yf);
        assert((x + y).drop_last() =~= x + yf);
        assert((rx + y).drop_last() =~= rx + yf);
        assert((x + y).last() == y.last());
        assert((rx + y).last() == y.last());
        let (ly, ry) = split_lines(rx + yf);
        assert((lx + ly).push(ry) =~= lx + ly.push(ry));
    }
}

/// The messages of two runs of lines are those of each, in order.
proof fn lemma_messages_append(a: Seq<Seq<u8>>, b: Seq<Seq<u8>>)
    ensures
        messages_of(a + b) == messages_of(a) + messages_of(b),
    decreases b.len(),
{
    if b.len() == 0 {
        assert(a + b =~= a);
        assert(messages_of(a) + messages_of(b) =~= messages_of(a));
    } else {
        lemma_messages_append(a, b.drop_last());
        assert((a + b).drop_last() =~= a + b.drop_last());
        assert((a + b).last() == b.last());
        let ma = messages_of(a);
        let mb = messages_of(b.drop_last());
        assert((ma + mb).push(decode_utf8(b.last())) =~= ma + mb.push(decode_utf8(b.last())));
    }
}

/// Where a read ends does not matter: two reads give, between them, the
/// messages that one read of their bytes together gives, and hold over the
/// same bytes.
pub proof fn lemma_reads_join(held: Seq<u8>, a: Seq<u8>, b: Seq<u8>)
    ensures
        ({
            let (lines1, rest1) = split_lines(held + a);
            let (lines2, rest2) = split_lines(rest1 + b);
            &&& messages_of(lines1) + messages_of(lines2) == messages_of(
                split_lines(held + a + b).0,
            )
            &&& rest2 == split_lines(held + a + b).1
        }),
{
    lemma_split_append(held + a, b);
    let (lines1, rest1) = split_lines(held + a);
    lemma_messages_append(lines1, split_lines(rest1 + b).0);
}

/// The bytes of one connection that arrived after its last newline.
pub struct LineBuffer {
    pending: Vec<u8>,
}

impl View for LineBuffer {
    type V = Seq<u8>;

    closed spec fn view(&self) -> Seq<u8> {
        self.pending@
    }
}

impl LineBuffer {
    pub fn new() -> (r: LineBuffer)
        ensures
            r@ == Seq::<u8>::empty(),
    {
        LineBuffer { pending: Vec::new() }
    }

    /// The bytes held over, waiting for their newline.
    pub fn pending(&self) -> (r: &[u8])
        ensures
            r@ == self@,
    {
        self.pending.as_slice()
    }
}

/// Takes the bytes of one read on a connection and returns the messages that
/// the lines it completes carry, in order. What follows the last newline is
/// kept in `buffer` for the next read.
pub fn read_messages(buffer: &mut LineBuffer, data: &[u8]) -> (r: Vec<String>)
    ensures
        texts(r@) == messages_of(split_lines(old(buffer)@ + data@).0),
        final(buffer)@ == split_lines(old(buffer)@ + data@).1,
{
    let mut all: Vec<u8> = Vec::new();
    all.append(&mut buffer.pending);
    let mut k: usize = 0;
    while k < data.len()
        invariant
            0 <= k <= data@.len(),
            all@ == old(buffer)@ + data@.take(k as int),
        decreases data@.len() - k,
    {
        all.push(data[k]);
        k = k + 1;
        assert(all@ =~= old(buffer)@ + data@.take(k as int));
    }
    assert(data@.take(data@.len() as int) =~= data@);

    let mut msgs: Vec<String> = Vec::new();
    let mut cur: Vec<u8> = Vec::new();
    let ghost mut lines: Seq<Seq<u8>> = seq![];
    let mut i: usize = 0;
    assert(all@.take(0) =~= Seq::<u8>::empty());
    while i < all.len()
        invariant
            0 <= i <= all@.len(),
            (lines, cur@) == split_lines(all@.take(i as int)),
            texts(msgs@) == messages_of(lines),
        decreases all@.len() - i,
    {
        let b = all[i];
        assert(all@.take(i + 1).drop_last() =~= all@.take(i as int));
        if b == NEWLINE {
            assert(lines.push(cur@).drop_last() =~= lines);
            if cur.len() > 0 {
                match decode_text(cur.as_slice()) {
                    Some(text) => {
                        let ghost before = msgs@;
                        msgs.push(text);
                        assert(texts(msgs@) =~= texts(before).push(text@));
                    },
                    None => {},
                }
            }
            proof {
                let prev = lines;
                lines = lines.push(cur@);
                assert(lines.drop_last() =~= prev);
            }
            cur = Vec::new();
        } else {
            cur.push(b);
        }
        i = i + 1;
    }
    assert(all@.take(all@.len() as int) =~= all@);
    buffer.pending = cur;
    msgs
}

} // verus!
