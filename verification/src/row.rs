//! A database row and its fixed-width on-disk representation.
use vstd::prelude::*;
use vstd::string::StringExecFns;
use vstd::utf8::{decode_utf8, encode_utf8, valid_utf8};

use crate::config::{COLUMN_EMAIL_SIZE, COLUMN_USERNAME_SIZE};
use crate::storage::codec::{copy_bytes, le_u32_at, read_u32_le, splice, u32_le_bytes, write_u32_le, zero_bytes};
use crate::text::{decimal_digits, decimal_text, utf8_lossy, utf8_lossy_text};

verus! {

broadcast use vstd::utf8::group_utf8_lib;

pub const ID_SIZE: usize = 4;
pub const USERNAME_SIZE: usize = COLUMN_USERNAME_SIZE + 1;
pub const EMAIL_SIZE: usize = COLUMN_EMAIL_SIZE + 1;

pub const ID_OFFSET: usize = 0;
pub const USERNAME_OFFSET: usize = ID_OFFSET + ID_SIZE;
pub const EMAIL_OFFSET: usize = USERNAME_OFFSET + USERNAME_SIZE;
pub const ROW_SIZE: usize = ID_SIZE + USERNAME_SIZE + EMAIL_SIZE;

#[derive(Debug, Clone, PartialEq, Eq)]
pub struct Row {
    pub id: u32,
    pub username: String,
    pub email: String,
}

/// A text field of `field_size` bytes: the first `max_text_size` bytes of `text` (or all of
/// them, if fewer), then zero padding.
pub open spec fn fixed_text(text: Seq<u8>, field_size: int, max_text_size: int) -> Seq<u8> {
    let n = if text.len() <= max_text_size {
        text.len() as int
    } else {
        max_text_size
    };
    text.take(n) + Seq::new((field_size - n) as nat, |i: int| 0u8)
}

/// The fixed-width record of a row with this ID, username and email.
pub open spec fn row_bytes(id: u32, username: Seq<char>, email: Seq<char>) -> Seq<u8> {
    u32_le_bytes(id) + fixed_text(encode_utf8(username), USERNAME_SIZE as int, COLUMN_USERNAME_SIZE as int)
        + fixed_text(encode_utf8(email), EMAIL_SIZE as int, COLUMN_EMAIL_SIZE as int)
}

/// Where the text in a field ends: at its first zero byte, or before its last byte when it
/// has none.
pub open spec fn text_end_from(field: Seq<u8>, i: int) -> int
    decreases field.len() - i,
{
    if i >= field.len() {
        field.len() - 1
    } else if field[i] == 0 {
        i
    } else {
        text_end_from(field, i + 1)
    }
}

/// The text bytes stored in a fixed-width field.
pub open spec fn stored_text(field: Seq<u8>) -> Seq<u8> {
    field.take(text_end_from(field, 0))
}

/// Whether the byte sequence holds no zero byte.
pub open spec fn has_no_zero(bytes: Seq<u8>) -> bool {
    forall|i: int| 0 <= i < bytes.len() ==> bytes[i] != 0
}

/// Whether a text is stored whole, and read back unchanged, in a field with room for
/// `max_text_size` bytes.
pub open spec fn fits_text_field(text: Seq<char>, max_text_size: int) -> bool {
    encode_utf8(text).len() <= max_text_size && has_no_zero(encode_utf8(text))
}

/// The text of the row's `(id, username, email)` display form.
pub open spec fn row_display(id: u32, username: Seq<char>, email: Seq<char>) -> Seq<char> {
    seq!['('] + decimal_digits(id as nat) + seq![',', ' '] + username + seq![',', ' '] + email + seq![')']
}

/// `row` is what reading a record from `bytes` gives: the ID from the first four bytes,
/// and each text field's stored bytes decoded by `utf8_lossy_text` (which is plain UTF-8
/// decoding when the bytes are valid UTF-8).
pub open spec fn decodes_to(bytes: Seq<u8>, row: Row) -> bool {
    let username_text = stored_text(bytes.subrange(USERNAME_OFFSET as int, EMAIL_OFFSET as int));
    let email_text = stored_text(bytes.subrange(EMAIL_OFFSET as int, ROW_SIZE as int));
    &&& row.id == le_u32_at(bytes, ID_OFFSET as int)
    &&& row.username@ == utf8_lossy_text(username_text)
    &&& row.email@ == utf8_lossy_text(email_text)
    &&& valid_utf8(username_text) ==> row.username@ == decode_utf8(username_text)
    &&& valid_utf8(email_text) ==> row.email@ == decode_utf8(email_text)
}

impl Row {
    /// Creates an owned row from an ID, username, and email.
    pub fn new(id: u32, username: &str, email: &str) -> (row: Self)
        ensures
            row.id == id,
            row.username@ == username@,
            row.email@ == email@,
    {
        Row { id, username: username.to_owned(), email: email.to_owned() }
    }

    /// Serializes this row into the fixed-width disk format at the start of `dest`.
    ///
    /// A destination shorter than `ROW_SIZE` is outside this function's contract.
    pub fn serialize_into(&self, dest: &mut [u8])
        requires
            old(dest)@.len() >= ROW_SIZE,
        ensures
            final(dest)@ == splice(old(dest)@, 0, row_bytes(self.id, self.username@, self.email@)),
    {
        write_u32_le(dest, ID_OFFSET, self.id);
        write_fixed_text(dest, USERNAME_OFFSET, USERNAME_SIZE, COLUMN_USERNAME_SIZE, self.username.as_str());
        write_fixed_text(dest, EMAIL_OFFSET, EMAIL_SIZE, COLUMN_EMAIL_SIZE, self.email.as_str());
        assert(dest@ =~= splice(old(dest)@, 0, row_bytes(self.id, self.username@, self.email@)));
    }

    /// Reads one row from its fixed-width disk representation at the start of `src`.
    ///
    /// A source shorter than `ROW_SIZE` is outside this function's contract.
    pub fn deserialize_from(src: &[u8]) -> (row: Self)
        requires
            src@.len() >= ROW_SIZE,
        ensures
            decodes_to(src@, row),
    {
        Row {
            id: read_u32_le(src, ID_OFFSET),
            username: read_fixed_text(src, USERNAME_OFFSET, USERNAME_SIZE),
            email: read_fixed_text(src, EMAIL_OFFSET, EMAIL_SIZE),
        }
    }

    /// The row as the REPL prints it: `(id, username, email)`.
    pub fn to_text(&self) -> (text: String)
        ensures
            text@ == row_display(self.id, self.username@, self.email@),
    {
        let mut text = String::from_str("(");
        let id_text = decimal_text(self.id as u64);
        text.append(id_text.as_str());
        text.append(", ");
        text.append(self.username.as_str());
        text.append(", ");
        text.append(self.email.as_str());
        text.append(")");
        proof {
            reveal_strlit("(");
            reveal_strlit(", ");
            reveal_strlit(")");
        }
        assert(text@ =~= row_display(self.id, self.username@, self.email@));
        text
    }
}

/// In a field made of zero-free text followed by zero padding, the stored text ends where
/// the padding starts.
proof fn lemma_text_end(field: Seq<u8>, text_len: int, i: int)
    requires
        0 <= i <= text_len < field.len(),
        has_no_zero(field.take(text_len)),
        field[text_len] == 0,
    ensures
        text_end_from(field, i) == text_len,
    decreases text_len - i,
{
    if i < text_len {
        assert(field.take(text_len)[i] == field[i]);
        lemma_text_end(field, text_len, i + 1);
    }
}

/// Reading a field back gives the text written into it, when the text fits the field and
/// holds no zero byte.
proof fn lemma_fixed_text_round_trip(text: Seq<char>, field_size: int, max_text_size: int)
    requires
        fits_text_field(text, max_text_size),
        0 <= max_text_size < field_size,
    ensures
        fixed_text(encode_utf8(text), field_size, max_text_size).len() == field_size,
        stored_text(fixed_text(encode_utf8(text), field_size, max_text_size)) == encode_utf8(text),
        valid_utf8(encode_utf8(text)),
        decode_utf8(encode_utf8(text)) == text,
{
    let bytes = encode_utf8(text);
    let field = fixed_text(bytes, field_size, max_text_size);
    assert(field.take(bytes.len() as int) =~= bytes);
    lemma_text_end(field, bytes.len() as int, 0);
    assert(stored_text(field) =~= bytes);
}

/// Reading a row back from the bytes that serializing it wrote gives the same ID, username
/// and email, for every row whose texts fit their fields and hold no zero byte.
pub proof fn lemma_row_round_trip(dest: Seq<u8>, id: u32, username: Seq<char>, email: Seq<char>)
    requires
        dest.len() >= ROW_SIZE,
        fits_text_field(username, COLUMN_USERNAME_SIZE as int),
        fits_text_field(email, COLUMN_EMAIL_SIZE as int),
    ensures
        ({
            let written = splice(dest, 0, row_bytes(id, username, email));
            let username_text = stored_text(written.subrange(USERNAME_OFFSET as int, EMAIL_OFFSET as int));
            let email_text = stored_text(written.subrange(EMAIL_OFFSET as int, ROW_SIZE as int));
            &&& written.len() == dest.len()
            &&& le_u32_at(written, ID_OFFSET as int) == id
            &&& valid_utf8(username_text) && decode_utf8(username_text) == username
            &&& valid_utf8(email_text) && decode_utf8(email_text) == email
        }),
{
    lemma_fixed_text_round_trip(username, USERNAME_SIZE as int, COLUMN_USERNAME_SIZE as int);
    lemma_fixed_text_round_trip(email, EMAIL_SIZE as int, COLUMN_EMAIL_SIZE as int);
    let b = row_bytes(id, username, email);
    let written = splice(dest, 0, b);
    let uf = fixed_text(encode_utf8(username), USERNAME_SIZE as int, COLUMN_USERNAME_SIZE as int);
    let ef = fixed_text(encode_utf8(email), EMAIL_SIZE as int, COLUMN_EMAIL_SIZE as int);
    assert(written.subrange(USERNAME_OFFSET as int, EMAIL_OFFSET as int) =~= uf);
    assert(written.subrange(EMAIL_OFFSET as int, ROW_SIZE as int) =~= ef);
    assert(le_u32_at(written, 0) == id) by {
        assert(written[0] == b[0] && written[1] == b[1] && written[2] == b[2] && written[3] == b[3]);
        assert((id % 0x100) as int + ((id / 0x100) % 0x100) as int * 0x100 + ((id / 0x1_0000) % 0x100) as int
            * 0x1_0000 + (id / 0x100_0000) as int * 0x100_0000 == id) by (bit_vector);
        assert((id / 0x100_0000) < 0x100) by (bit_vector);
    }
}

/// Writes `value` as a fixed-width text field: at most `max_text_size` of its bytes, then
/// zeros up to `field_size`.
fn write_fixed_text(dest: &mut [u8], offset: usize, field_size: usize, max_text_size: usize, value: &str)
    requires
        offset + field_size <= old(dest)@.len(),
        max_text_size <= field_size,
    ensures
        final(dest)@ == splice(old(dest)@, offset as int, fixed_text(encode_utf8(value@), field_size as int, max_text_size as int)),
{
    let dest_len = dest.len();
    let bytes = value.as_bytes();
    let copy_len = if bytes.len() < max_text_size { bytes.len() } else { max_text_size };
    let text_end = offset + copy_len;
    copy_bytes(dest, offset, &bytes[0..copy_len]);
    zero_bytes(dest, text_end, offset + field_size - text_end);
    assert(dest@ =~= splice(old(dest)@, offset as int, fixed_text(encode_utf8(value@), field_size as int, max_text_size as int)));
}

/// Reads the text stored in a fixed-width field, up to its first zero byte.
fn read_fixed_text(src: &[u8], offset: usize, field_size: usize) -> (text: String)
    requires
        offset + field_size <= src@.len(),
        field_size >= 1,
    ensures
        text@ == utf8_lossy_text(stored_text(src@.subrange(offset as int, offset + field_size))),
        valid_utf8(stored_text(src@.subrange(offset as int, offset + field_size))) ==> text@
            == decode_utf8(stored_text(src@.subrange(offset as int, offset + field_size))),
{
    let src_len = src.len();
    let field = &src[offset..offset + field_size];
    let mut i: usize = 0;
    while i < field_size && field[i] != 0
        invariant
            field@.len() == field_size,
            0 <= i <= field_size,
            text_end_from(field@, 0) == text_end_from(field@, i as int),
        decreases field_size - i,
    {
        i = i + 1;
    }
    let text_end = if i < field_size { i } else { field_size - 1 };
    assert(text_end == text_end_from(field@, 0));
    utf8_lossy(&field[0..text_end])
}

} // verus!
