//! Readers and writers over strings held in memory, for feeding text to
//! code that reads from a stream and for collecting what it writes.

use vstd::prelude::*;

verus! {

broadcast use vstd::string::group_string_axioms;

/// `std::io::Error`, which readers and writers name in what they return.
/// Nothing is claimed of its values, and the reader and the writer of this
/// module never make one.
#[verifier::external_type_specification]
#[verifier::external_body]
pub struct ExIoError(std::io::Error);

/// What the lossy conversion of `std` makes of `bytes`: the text that they
/// encode, with the replacement character in place of each sequence that
/// is not valid UTF-8.
pub uninterp spec fn lossy_text(bytes: Seq<u8>) -> Seq<char>;

/// Calls `String::from_utf8_lossy` and takes ownership of the result.
/// Taken on trust: that the result depends on the bytes alone, so that it
/// can go by the name `lossy_text`, and that of valid UTF-8 it is the text
/// that the bytes encode, as the documentation of `std` has it.
#[verifier::external_body]
fn utf8_lossy(bytes: &[u8]) -> (s: String)
    ensures
        s@ == lossy_text(bytes@),
        vstd::utf8::valid_utf8(bytes@) ==> s@ == vstd::utf8::decode_utf8(bytes@),
{
    String::from_utf8_lossy(bytes).into_owned()
}

/// Hands out the bytes of a string, a buffer at a time.
pub struct StringReader {
    inner: String,
    cursor: usize,
}

impl StringReader {
    /// The cursor never passes the end.
    #[verifier::type_invariant]
    spec fn in_bounds(self) -> bool {
        self.cursor <= vstd::utf8::encode_utf8(self.inner@).len()
    }

    /// The text that is read.
    pub closed spec fn text(&self) -> Seq<char> {
        self.inner@
    }

    /// All the bytes that the reader hands out, first to last: the text in
    /// UTF-8.
    pub open spec fn contents(&self) -> Seq<u8> {
        vstd::utf8::encode_utf8(self.text())
    }

    /// How many bytes were handed out so far.
    pub closed spec fn consumed(&self) -> nat {
        self.cursor as nat
    }

    /// How many bytes a read into a buffer of `room` bytes hands out: all
    /// that is left, or as many as fit.
    pub open spec fn next_len(&self, room: nat) -> nat {
        if self.contents().len() - self.consumed() < room {
            (self.contents().len() - self.consumed()) as nat
        } else {
            room
        }
    }
}

impl From<String> for StringReader {
    /// A reader at the start of `value`.
    fn from(value: String) -> (r: StringReader)
        ensures
            r.text() == value@,
            r.consumed() == 0,
    {
        StringReader { inner: value, cursor: 0 }
    }
}

impl vstd::std_specs::convert::FromSpecImpl<String> for StringReader {
    open spec fn obeys_from_spec() -> bool {
        true
    }

    closed spec fn from_spec(value: String) -> StringReader {
        StringReader { inner: value, cursor: 0 }
    }
}

impl<'a> From<&'a str> for StringReader {
    /// A reader at the start of a copy of `value`.
    fn from(value: &'a str) -> (r: StringReader)
        ensures
            r.text() == value@,
            r.consumed() == 0,
    {
        StringReader::from(value.to_string())
    }
}

impl<'a> vstd::std_specs::convert::FromSpecImpl<&'a str> for StringReader {
    /// The copy that the reader holds is no function of `value`: only its
    /// text is.
    open spec fn obeys_from_spec() -> bool {
        false
    }

    open spec fn from_spec(value: &'a str) -> StringReader {
        arbitrary()
    }
}

impl std::io::Read for StringReader {
    /// Copies the next bytes to the start of `buf`, as many as there are
    /// left and fit, and leaves the rest of `buf` as it was. Returns how
    /// many were copied: 0 at the end of the text or for an empty buffer.
    fn read(&mut self, buf: &mut [u8]) -> (r: std::io::Result<usize>)
        ensures
            r matches Ok(n) && n == old(self).next_len(old(buf)@.len()),
            final(self).text() == old(self).text(),
            final(self).consumed() == old(self).consumed() + old(self).next_len(old(buf)@.len()),
            final(self).consumed() <= final(self).contents().len(),
            final(buf)@ == old(self).contents().subrange(
                old(self).consumed() as int,
                (old(self).consumed() + old(self).next_len(old(buf)@.len())) as int,
            ) + old(buf)@.subrange(
                old(self).next_len(old(buf)@.len()) as int,
                old(buf)@.len() as int,
            ),
    {
        proof {
            use_type_invariant(&*self);
        }
        let bytes = self.inner.as_str().as_bytes();

        assert(bytes@.len() == bytes.len());

        // Write to the start of the buffer
        let mut i: usize = 0;

        // Proceed either to the end of the buffer or the end of the string
        while i < buf.len() && self.cursor + i < bytes.len()
            invariant
                bytes@ == old(self).contents(),
                self.cursor == old(self).cursor,
                self.inner == old(self).inner,
                self.cursor + i <= bytes@.len() <= usize::MAX,
                i <= buf@.len(),
                buf@.len() == old(buf)@.len(),
                forall|j: int| 0 <= j < i ==> buf@[j] == bytes@[self.cursor + j],
                forall|j: int| i <= j < buf@.len() ==> buf@[j] == old(buf)@[j],
            decreases buf@.len() - i,
        {
            buf[i] = bytes[self.cursor + i];
            i += 1;
        }

        // Move the cursor forward
        self.cursor += i;

        // Return the number of bytes read
        Ok(i)
    }
}

/// Collects what is written into a string.
#[derive(Debug, Clone, PartialEq, Eq)]
pub struct StringWriter {
    inner: String,
}

impl StringWriter {
    /// The text written so far.
    pub closed spec fn text(&self) -> Seq<char> {
        self.inner@
    }

    /// Start writing into an empty string.
    pub fn new() -> (w: Self)
        ensures
            w.text() == Seq::<char>::empty(),
    {
        StringWriter { inner: String::new() }
    }

    /// Destroy the writer and return the string that was built.
    pub fn take(self) -> (s: String)
        ensures
            s@ == self.text(),
    {
        self.inner
    }

    /// Add `text` at the end.
    pub fn push_text(&mut self, text: &str)
        ensures
            final(self).text() == old(self).text() + text@,
    {
        self.inner.append(text);
    }
}

impl std::io::Write for StringWriter {
    /// Adds the text that `buf` encodes at the end, with the replacement
    /// character for what is not valid UTF-8, and reports all of `buf` as
    /// written.
    fn write(&mut self, buf: &[u8]) -> (r: std::io::Result<usize>)
        ensures
            r matches Ok(n) && n == buf@.len(),
            final(self).text() == old(self).text() + lossy_text(buf@),
            vstd::utf8::valid_utf8(buf@) ==> final(self).text() == old(self).text()
                + vstd::utf8::decode_utf8(buf@),
    {
        let s = utf8_lossy(buf);
        self.push_text(s.as_str());
        Ok(buf.len())
    }

    /// Nothing is buffered, so there is nothing to do.
    fn flush(&mut self) -> (r: std::io::Result<()>)
        ensures
            r is Ok,
            final(self).text() == old(self).text(),
    {
        Ok(())
    }
}

} // verus!
