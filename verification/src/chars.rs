//! Characters from bytes, by way of `char_reader`.

use vstd::prelude::*;

verus! {

/// A `char_reader::CharReader` over bytes held in memory. (Verus cannot take
/// the reader's type in a declaration: its parameter is bound by `io::Read`.)
#[verifier::external_body]
pub struct CharSource {
    reader: char_reader::CharReader<std::io::Cursor<Vec<u8>>>,
}

/// The characters that successive calls of `CharReader::next_char` hand out
/// from this source, up to the first call that reports the end of the input.
pub uninterp spec fn pending_chars(r: CharSource) -> Seq<char>;

/// Calls `CharReader::new` on a cursor over the bytes. Claims that the pending
/// characters are those the bytes encode. The bytes must be valid UTF-8: on
/// other bytes `next_char` may fail, or hand out the same char without end.
#[verifier::external_body]
pub(crate) fn char_source(bytes: Vec<u8>) -> (r: CharSource)
    requires
        vstd::utf8::valid_utf8(bytes@),
    ensures
        pending_chars(r) == vstd::utf8::decode_utf8(bytes@),
{
    CharSource { reader: char_reader::CharReader::new(std::io::Cursor::new(bytes)) }
}

/// Calls `CharReader::next_char`, with an error taken as the end of the input.
/// Claims that the char handed out is the first pending one, that the rest
/// stay pending, and that none is handed out once none is pending.
#[verifier::external_body]
pub(crate) fn next_char(r: &mut CharSource) -> (c: Option<char>)
    ensures
        pending_chars(*old(r)).len() == 0 ==> c is None,
        pending_chars(*old(r)).len() > 0 ==> c == Some(pending_chars(*old(r))[0])
            && pending_chars(*final(r)) == pending_chars(*old(r)).drop_first(),
{
    match r.reader.next_char() {
        Ok(c) => c,
        Err(_) => None,
    }
}

} // verus!
