//! Incremental reading of a growing file, keyed by byte offset.
//!
//! The reader owns only the offset bookkeeping: the caller hands it the
//! file's current contents as bytes, and the reader returns exactly the
//! bytes appended since the last read, never re-delivering a byte. The
//! offset advances strictly by bytes consumed, independent of any text
//! decoding.

use vstd::prelude::*;

verus! {

/// The decoding of `bytes` as UTF-8 with invalid sequences replaced: what
/// `String::from_utf8_lossy` returns, a function of the bytes alone.
pub uninterp spec fn decoded(bytes: Seq<u8>) -> Seq<char>;

/// Relies on `String::from_utf8_lossy`: it decodes the bytes as UTF-8,
/// replacing invalid sequences, as a function of the bytes alone.
#[verifier::external_body]
fn decode_lossy(bytes: &Vec<u8>) -> (r: String)
    ensures
        r@ == decoded(bytes@),
{
    String::from_utf8_lossy(bytes).into_owned()
}

/// The index of the first line feed in `bytes`, or their length if there is
/// none.
pub open spec fn line_end(bytes: Seq<u8>) -> nat
    decreases bytes.len(),
{
    if bytes.len() == 0 {
        0
    } else if bytes[0] == 10 {
        0
    } else {
        1 + line_end(bytes.drop_first())
    }
}

/// One record's payload: the record with a single trailing carriage return,
/// if any, removed.
pub open spec fn strip_cr(line: Seq<u8>) -> Seq<u8> {
    if line.len() > 0 && line.last() == 13 {
        line.drop_last()
    } else {
        line
    }
}

/// The newline-delimited records of `bytes`, cut as `str::lines` cuts text:
/// split at each line feed, one trailing carriage return per record removed,
/// and no empty record after a final line feed.
pub open spec fn split_lines(bytes: Seq<u8>) -> Seq<Seq<u8>>
    decreases bytes.len(),
{
    if bytes.len() == 0 {
        Seq::empty()
    } else {
        let e = line_end(bytes) as int;
        if e >= bytes.len() {
            seq![strip_cr(bytes)]
        } else {
            seq![strip_cr(bytes.subrange(0, e))] + split_lines(
                bytes.subrange(e + 1, bytes.len() as int),
            )
        }
    }
}

/// `line_end` is the position characterized by the scan: no line feed before
/// it, and a line feed at it unless the bytes ran out.
proof fn lemma_line_end_is(bytes: Seq<u8>, k: int)
    requires
        0 <= k <= bytes.len(),
        forall|j: int| 0 <= j < k ==> bytes[j] != 10,
        k < bytes.len() ==> bytes[k] == 10,
    ensures
        line_end(bytes) == k,
    decreases bytes.len(),
{
    if bytes.len() == 0 {
    } else if bytes[0] == 10 {
        assert(k == 0);
    } else {
        assert(k >= 1);
        lemma_line_end_is(bytes.drop_first(), k - 1);
    }
}

/// Tail state of one log file: how many bytes of it have already been
/// consumed.
pub struct FileReader {
    /// Number of bytes of the file already consumed; monotonically
    /// non-decreasing, initialized to the file length at construction so
    /// pre-existing content is never replayed.
    pub pos: u64,
}

impl FileReader {
    /// Constructs a reader that starts at the file's current length, so only
    /// future appends are ever returned.
    pub fn new(initial_len: u64) -> (r: FileReader)
        ensures
            r.pos == initial_len,
    {
        FileReader { pos: initial_len }
    }

    /// Returns exactly the bytes appended since the last read, and advances
    /// the offset by that many bytes: a byte is never delivered twice.
    ///
    /// `contents` is the file's current contents; the file must not have
    /// shrunk below the consumed offset.
    pub fn read(&mut self, contents: &Vec<u8>) -> (appended: Vec<u8>)
        requires
            old(self).pos <= contents@.len(),
        ensures
            final(self).pos == contents@.len(),
            appended@ == contents@.subrange(old(self).pos as int, contents@.len() as int),
    {
        let len = contents.len();
        proof {
            assert(self.pos as int <= len as int);
        }
        let start = self.pos as usize;
        let mut i: usize = start;
        let mut out: Vec<u8> = Vec::new();
        proof {
            assert(out@ =~= contents@.subrange(start as int, start as int));
        }
        while i < len
            invariant
                len == contents@.len(),
                start <= i <= len,
                out@ == contents@.subrange(start as int, i as int),
            decreases len - i,
        {
            out.push(contents[i]);
            proof {
                assert(out@ =~= contents@.subrange(start as int, (i + 1) as int));
            }
            i += 1;
        }
        self.pos = len as u64;
        out
    }

    /// Like [`FileReader::read`], but cuts the appended bytes into
    /// newline-delimited records and decodes each.
    pub fn read_lines(&mut self, contents: &Vec<u8>) -> (lines: Vec<String>)
        requires
            old(self).pos <= contents@.len(),
        ensures
            final(self).pos == contents@.len(),
            lines@.len() == split_lines(
                contents@.subrange(old(self).pos as int, contents@.len() as int),
            ).len(),
            forall|i: int|
                0 <= i < lines@.len() ==> lines@[i]@ == decoded(
                    split_lines(
                        contents@.subrange(old(self).pos as int, contents@.len() as int),
                    )[i],
                ),
    {
        let appended = self.read(contents);
        split_into_lines(&appended)
    }
}

/// Cuts `bytes` into newline-delimited records, as [`split_lines`] does, and
/// decodes each record.
pub fn split_into_lines(bytes: &Vec<u8>) -> (lines: Vec<String>)
    ensures
        lines@.len() == split_lines(bytes@).len(),
        forall|i: int| 0 <= i < lines@.len() ==> lines@[i]@ == decoded(split_lines(bytes@)[i]),
{
    let len = bytes.len();
    let mut lines: Vec<String> = Vec::new();
    let ghost whole = bytes@;
    let ghost mut done: Seq<Seq<u8>> = Seq::empty();
    let mut c: usize = 0;
    proof {
        assert(whole.subrange(0, len as int) =~= whole);
        assert(split_lines(whole) =~= done + split_lines(whole.subrange(0, len as int)));
    }
    while c < len
        invariant
            len == bytes@.len(),
            whole == bytes@,
            c <= len,
            split_lines(whole) == done + split_lines(whole.subrange(c as int, len as int)),
            lines@.len() == done.len(),
            forall|i: int| 0 <= i < lines@.len() ==> lines@[i]@ == decoded(done[i]),
        decreases len - c,
    {
        let ghost rest = whole.subrange(c as int, len as int);

        // Scan for the next line feed.
        let mut e: usize = c;
        while e < len && !(bytes[e] == 10u8)
            invariant
                len == bytes@.len(),
                c <= e <= len,
                forall|j: int| c <= j < e ==> bytes@[j] != 10,
            decreases len - e,
        {
            e += 1;
        }
        proof {
            lemma_line_end_is(rest, e as int - c as int);
        }

        // Cut the record, without a trailing carriage return.
        let mut stop = e;
        if stop > c && bytes[stop - 1] == 13u8 {
            stop -= 1;
        }
        let mut piece: Vec<u8> = Vec::new();
        let mut j = c;
        proof {
            assert(piece@ =~= whole.subrange(c as int, c as int));
        }
        while j < stop
            invariant
                len == bytes@.len(),
                whole == bytes@,
                c <= j <= stop <= len,
                piece@ == whole.subrange(c as int, j as int),
            decreases stop - j,
        {
            piece.push(bytes[j]);
            proof {
                assert(piece@ =~= whole.subrange(c as int, (j + 1) as int));
            }
            j += 1;
        }
        proof {
            // The piece is the stripped record at the head of `rest`.
            if e < len {
                assert(rest.subrange(0, e - c) =~= whole.subrange(c as int, e as int));
                assert(strip_cr(rest.subrange(0, e - c)) =~= piece@);
            } else {
                assert(rest =~= whole.subrange(c as int, e as int));
                assert(strip_cr(rest) =~= piece@);
            }
        }
        let text = decode_lossy(&piece);
        lines.push(text);
        proof {
            done = done.push(piece@);
        }
        if e < len {
            proof {
                let tail = rest.subrange(e - c + 1, rest.len() as int);
                assert(tail =~= whole.subrange((e + 1) as int, len as int));
                assert(split_lines(rest) == seq![piece@] + split_lines(tail));
                assert(done + split_lines(tail) =~= (done.drop_last() + (seq![piece@]
                    + split_lines(tail))));
                assert(split_lines(whole) == done + split_lines(
                    whole.subrange((e + 1) as int, len as int),
                ));
            }
            c = e + 1;
        } else {
            proof {
                assert(split_lines(rest) == seq![piece@]);
                assert(whole.subrange(len as int, len as int) =~= Seq::<u8>::empty());
                assert(split_lines(whole.subrange(len as int, len as int)) =~= Seq::<
                    Seq<u8>,
                >::empty());
                assert(done + split_lines(whole.subrange(len as int, len as int)) =~= (
                done.drop_last() + seq![piece@]));
                assert(split_lines(whole) == done + split_lines(
                    whole.subrange(len as int, len as int),
                ));
            }
            c = len;
        }
    }
    proof {
        assert(whole.subrange(len as int, len as int) =~= Seq::<u8>::empty());
        assert(split_lines(whole) =~= done);
    }
    lines
}

} // verus!
