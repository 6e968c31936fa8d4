//! Errors that can occur when reading or writing EBML data.
use vstd::prelude::*;
use vstd::string::StringExecFns;

verus! {

/// The error type behind a failed UTF-8 conversion of the standard library.
/// Nothing is known of a value of it but that it exists.
#[verifier::external_type_specification]
#[verifier::external_body]
pub struct ExFromUtf8Error(std::string::FromUtf8Error);

/// Problems met by the conversion tools.
#[derive(Debug)]
pub enum ToolError {
    /// The first byte of a vint announces more than eight bytes.
    ReadVintOverflow,
    /// The value does not fit in a vint of the requested width.
    WriteVintOverflow(u64),
    /// The value is outside the range of a signed vint of the requested width.
    WriteSignedVintOverflow(i64),
    /// More than eight bytes were given for an unsigned integer.
    ReadU64Overflow(Vec<u8>),
    /// More than eight bytes were given for a signed integer.
    ReadI64Overflow(Vec<u8>),
    /// The bytes given for a float are neither four nor eight.
    ReadF64Mismatch(Vec<u8>),
    /// The bytes given for a string are not valid UTF-8.
    FromUtf8Error(Vec<u8>, std::string::FromUtf8Error),
}

/// The text of the digit `digit`, which is below 16: `0` to `9`, then `a` to
/// `f`.
pub open spec fn digit_text(digit: nat) -> Seq<char> {
    if digit == 0 {
        "0"@
    } else if digit == 1 {
        "1"@
    } else if digit == 2 {
        "2"@
    } else if digit == 3 {
        "3"@
    } else if digit == 4 {
        "4"@
    } else if digit == 5 {
        "5"@
    } else if digit == 6 {
        "6"@
    } else if digit == 7 {
        "7"@
    } else if digit == 8 {
        "8"@
    } else if digit == 9 {
        "9"@
    } else if digit == 10 {
        "a"@
    } else if digit == 11 {
        "b"@
    } else if digit == 12 {
        "c"@
    } else if digit == 13 {
        "d"@
    } else if digit == 14 {
        "e"@
    } else {
        "f"@
    }
}

/// The text of `value` in the base `radix`, which is 10 or 16, without
/// leading zeros.
pub open spec fn number_text(value: nat, radix: nat) -> Seq<char>
    decreases value,
{
    if radix < 2 || value < radix {
        digit_text(value)
    } else {
        proof {
            vstd::arithmetic::div_mod::lemma_div_decreases(value as int, radix as int);
        }
        number_text(value / radix, radix) + digit_text(value % radix)
    }
}

/// The text of `value` in decimal digits, with a minus sign before a negative
/// number.
pub open spec fn signed_text(value: int) -> Seq<char> {
    if value < 0 {
        "-"@ + number_text((-value) as nat, 10)
    } else {
        number_text(value as nat, 10)
    }
}

/// The text of the bytes from the `from`-th on as decimal numbers, with a
/// comma and a blank before each but the first of all.
pub open spec fn byte_items_text(bytes: Seq<u8>, from: nat) -> Seq<char>
    decreases bytes.len() - from,
{
    if from >= bytes.len() {
        Seq::empty()
    } else if from == 0 {
        number_text(bytes[0] as nat, 10) + byte_items_text(bytes, 1)
    } else {
        ", "@ + number_text(bytes[from as int] as nat, 10) + byte_items_text(bytes, from + 1)
    }
}

/// The text of `bytes` as a list of decimal numbers in square brackets.
pub open spec fn byte_list_text(bytes: Seq<u8>) -> Seq<char> {
    "["@ + byte_items_text(bytes, 0) + "]"@
}

/// The text of an optional number in the base `radix`: `None`, or the number
/// in round brackets behind `Some`.
pub open spec fn optional_text(value: Option<nat>, radix: nat) -> Seq<char> {
    match value {
        None => "None"@,
        Some(v) => "Some("@ + number_text(v, radix) + ")"@,
    }
}

/// The text of the digit `value`.
fn digit(value: u64) -> (r: &'static str)
    requires
        value < 16,
    ensures
        r@ == digit_text(value as nat),
{
    if value == 0 {
        "0"
    } else if value == 1 {
        "1"
    } else if value == 2 {
        "2"
    } else if value == 3 {
        "3"
    } else if value == 4 {
        "4"
    } else if value == 5 {
        "5"
    } else if value == 6 {
        "6"
    } else if value == 7 {
        "7"
    } else if value == 8 {
        "8"
    } else if value == 9 {
        "9"
    } else if value == 10 {
        "a"
    } else if value == 11 {
        "b"
    } else if value == 12 {
        "c"
    } else if value == 13 {
        "d"
    } else if value == 14 {
        "e"
    } else {
        "f"
    }
}

/// The text of `value` in the base `radix`.
pub fn number(value: u64, radix: u64) -> (r: String)
    requires
        radix == 10 || radix == 16,
    ensures
        r@ == number_text(value as nat, radix as nat),
    decreases value,
{
    if value < radix {
        String::from_str(digit(value))
    } else {
        number(value / radix, radix).concat(digit(value % radix))
    }
}

/// The text of `value` in decimal digits.
pub fn decimal(value: u64) -> (r: String)
    ensures
        r@ == number_text(value as nat, 10),
{
    number(value, 10)
}

/// The text of `value` in hexadecimal digits.
pub fn hexadecimal(value: u64) -> (r: String)
    ensures
        r@ == number_text(value as nat, 16),
{
    number(value, 16)
}

/// The text of `value` in decimal digits, with its sign.
pub fn signed_decimal(value: i64) -> (r: String)
    ensures
        r@ == signed_text(value as int),
{
    if value < 0 {
        let magnitude: u64 = if value == i64::MIN {
            0x8000_0000_0000_0000
        } else {
            (-value) as u64
        };
        String::from_str("-").concat(decimal(magnitude).as_str())
    } else {
        decimal(value as u64)
    }
}

/// The text of `bytes` as a list of decimal numbers in square brackets.
pub fn byte_list(bytes: &Vec<u8>) -> (r: String)
    ensures
        r@ == byte_list_text(bytes@),
{
    let mut text: String = String::from_str("[");
    let mut i: usize = 0;
    while i < bytes.len()
        invariant
            i <= bytes@.len(),
            text@ + byte_items_text(bytes@, i as nat) == "["@ + byte_items_text(bytes@, 0),
        decreases bytes@.len() - i,
    {
        let ghost had = text@;
        if i > 0 {
            text.append(", ");
        }
        let item: String = decimal(bytes[i] as u64);
        text.append(item.as_str());
        proof {
            let rest = byte_items_text(bytes@, (i + 1) as nat);
            if i > 0 {
                assert(text@ + rest =~= had + (", "@ + number_text(bytes@[i as int] as nat, 10) + rest));
            } else {
                assert(text@ + rest =~= had + (number_text(bytes@[0] as nat, 10) + rest));
            }
        }
        i += 1;
    }
    proof {
        assert(text@ + byte_items_text(bytes@, i as nat) =~= text@);
    }
    text.append("]");
    text
}

/// The text of an optional number in the base `radix`.
pub fn optional(value: Option<u64>, radix: u64) -> (r: String)
    requires
        radix == 10 || radix == 16,
    ensures
        r@ == optional_text(
            match value {
                Some(v) => Some(v as nat),
                None => None,
            },
            radix as nat,
        ),
{
    match value {
        None => String::from_str("None"),
        Some(v) => String::from_str("Some(").concat(number(v, radix).as_str()).concat(")"),
    }
}

impl ToolError {
    /// The sentence that says what went wrong.
    pub open spec fn message_text(self) -> Seq<char> {
        match self {
            ToolError::ReadVintOverflow => "Unrepresentable Vint size encountered."@,
            ToolError::WriteVintOverflow(val) => "Value too large to be written as a vint: "@
                + number_text(val as nat, 10),
            ToolError::WriteSignedVintOverflow(val) => "Value outside range to be written as a vint: "@
                + signed_text(val as int),
            ToolError::ReadU64Overflow(arr) => "Could not read unsigned int from array: "@
                + byte_list_text(arr@),
            ToolError::ReadI64Overflow(arr) => "Could not read int from array: "@ + byte_list_text(
                arr@,
            ),
            ToolError::ReadF64Mismatch(arr) => "Could not read float from array: "@ + byte_list_text(
                arr@,
            ),
            ToolError::FromUtf8Error(arr, _) => "Could not read utf8 data: "@ + byte_list_text(arr@),
        }
    }

    /// A sentence that says what went wrong.
    pub fn message(&self) -> (r: String)
        ensures
            r@ == self.message_text(),
    {
        match self {
            ToolError::ReadVintOverflow => String::from_str("Unrepresentable Vint size encountered."),
            ToolError::WriteVintOverflow(val) => {
                String::from_str("Value too large to be written as a vint: ").concat(
                    decimal(*val).as_str(),
                )
            },
            ToolError::WriteSignedVintOverflow(val) => {
                String::from_str("Value outside range to be written as a vint: ").concat(
                    signed_decimal(*val).as_str(),
                )
            },
            ToolError::ReadU64Overflow(arr) => {
                String::from_str("Could not read unsigned int from array: ").concat(
                    byte_list(arr).as_str(),
                )
            },
            ToolError::ReadI64Overflow(arr) => {
                String::from_str("Could not read int from array: ").concat(byte_list(arr).as_str())
            },
            ToolError::ReadF64Mismatch(arr) => {
                String::from_str("Could not read float from array: ").concat(
                    byte_list(arr).as_str(),
                )
            },
            ToolError::FromUtf8Error(arr, _) => {
                String::from_str("Could not read utf8 data: ").concat(byte_list(arr).as_str())
            },
        }
    }
}

/// What a tool error says, with its bytes as a sequence.
pub enum ToolFault {
    ReadVintOverflow,
    WriteVintOverflow(u64),
    WriteSignedVintOverflow(i64),
    ReadU64Overflow(Seq<u8>),
    ReadI64Overflow(Seq<u8>),
    ReadF64Mismatch(Seq<u8>),
    FromUtf8Error(Seq<u8>),
}

impl ToolError {
    /// What the error says.
    pub open spec fn fault(self) -> ToolFault {
        match self {
            ToolError::ReadVintOverflow => ToolFault::ReadVintOverflow,
            ToolError::WriteVintOverflow(v) => ToolFault::WriteVintOverflow(v),
            ToolError::WriteSignedVintOverflow(v) => ToolFault::WriteSignedVintOverflow(v),
            ToolError::ReadU64Overflow(b) => ToolFault::ReadU64Overflow(b@),
            ToolError::ReadI64Overflow(b) => ToolFault::ReadI64Overflow(b@),
            ToolError::ReadF64Mismatch(b) => ToolFault::ReadF64Mismatch(b@),
            ToolError::FromUtf8Error(b, _) => ToolFault::FromUtf8Error(b@),
        }
    }
}

/// Ways in which the bytes of a document break the rules of EBML or of the
/// specification.
#[derive(Copy, Clone, Debug, PartialEq, Eq, Structural)]
pub enum CorruptedFileError {
    /// A tag has an id that the specification does not know, or for which it
    /// makes no tag.
    InvalidTagId {
        /// The id that was found.
        tag_id: u64,
        /// Where the tag starts.
        position: usize,
    },
    /// The header of a tag cannot be right: its size is no vint, an integer or
    /// a float claims more than eight bytes, or a tag that is no master has an
    /// unknown size.
    InvalidTagData {
        /// The id of the tag.
        tag_id: u64,
        /// Where the tag starts.
        position: usize,
    },
    /// A tag stands where the specification does not allow it.
    HierarchyError {
        /// The id of the tag that was found.
        found_tag_id: u64,
        /// The id of the innermost open master tag, if one is open.
        current_parent_id: Option<u64>,
    },
    /// A tag reaches beyond the end of a master tag that contains it.
    OversizedChildElement {
        /// Where the tag starts.
        position: usize,
        /// The id of the tag.
        tag_id: u64,
        /// The size that the tag claims for its body.
        size: usize,
    },
    /// A tag claims a body that is longer than the iterator was told to
    /// accept.
    InvalidTagSize {
        /// Where the tag starts.
        position: usize,
        /// The id of the tag.
        tag_id: u64,
        /// The size that the tag claims for its body.
        size: usize,
    },
}

/// Problems met while reading tags.
#[derive(Debug)]
#[allow(inconsistent_fields)]
pub enum TagIteratorError {
    /// The bytes of the document break a rule.
    CorruptedFileData(CorruptedFileError),
    /// The document ends within a tag.
    UnexpectedEOF {
        /// Where the tag starts.
        tag_start: usize,
        /// The id of the tag, if it was read.
        tag_id: Option<u64>,
        /// The size that the tag claims for its body, if it was read.
        tag_size: Option<usize>,
        /// The bytes of the body that are there.
        partial_data: Option<Vec<u8>>,
    },
    /// The body of a tag cannot be read as what the specification declares
    /// for it.
    CorruptedTagData {
        /// The id of the tag.
        tag_id: u64,
        /// Why the body cannot be read.
        problem: ToolError,
    },
}

/// What a tag iterator error says, with its bytes as a sequence.
#[allow(inconsistent_fields)]
pub enum ReadFault {
    CorruptedFileData(CorruptedFileError),
    UnexpectedEOF {
        tag_start: usize,
        tag_id: Option<u64>,
        tag_size: Option<usize>,
        partial_data: Option<Seq<u8>>,
    },
    CorruptedTagData { tag_id: u64, problem: ToolFault },
}

impl TagIteratorError {
    /// What the error says.
    pub open spec fn fault(self) -> ReadFault {
        match self {
            TagIteratorError::CorruptedFileData(e) => ReadFault::CorruptedFileData(e),
            TagIteratorError::UnexpectedEOF { tag_start, tag_id, tag_size, partial_data } => {
                ReadFault::UnexpectedEOF {
                    tag_start,
                    tag_id,
                    tag_size,
                    partial_data: match partial_data {
                        Some(bytes) => Some(bytes@),
                        None => None,
                    },
                }
            },
            TagIteratorError::CorruptedTagData { tag_id, problem } => ReadFault::CorruptedTagData {
                tag_id,
                problem: problem.fault(),
            },
        }
    }
}

/// Problems met while writing tags.
#[derive(Debug)]
pub enum TagWriterError {
    /// The tag cannot be written under its id: what it holds is not what the
    /// specification declares for the id.
    TagIdError(u64),
    /// The size of a tag cannot be written: the body is longer than a vint
    /// can say, or a tag that is no master was to be written with an unknown
    /// size. The text says which.
    TagSizeError(String),
    /// A tag was closed that is not the innermost open one.
    UnexpectedClosingTag {
        /// The id of the tag that was to be closed.
        tag_id: u64,
        /// The id of the innermost open tag, if there is one.
        expected_id: Option<u64>,
    },
}

/// The kinds of problems met while writing tags.
pub enum WriteFault {
    /// See [`TagWriterError::TagIdError`].
    TagId(u64),
    /// See [`TagWriterError::TagSizeError`].
    TagSize(Seq<char>),
    /// See [`TagWriterError::UnexpectedClosingTag`].
    UnexpectedClosingTag { tag_id: u64, expected_id: Option<u64> },
}

impl TagWriterError {
    /// The kind of the problem.
    pub open spec fn fault(self) -> WriteFault {
        match self {
            TagWriterError::TagIdError(id) => WriteFault::TagId(id),
            TagWriterError::TagSizeError(message) => WriteFault::TagSize(message@),
            TagWriterError::UnexpectedClosingTag { tag_id, expected_id } => {
                WriteFault::UnexpectedClosingTag { tag_id, expected_id }
            },
        }
    }
}

impl CorruptedFileError {
    /// The sentence that says what is wrong with the document.
    pub open spec fn message_text(self) -> Seq<char> {
        match self {
            CorruptedFileError::InvalidTagId { tag_id, position } => "Encountered invalid tag id: "@
                + number_text(tag_id as nat, 16) + " at position "@ + number_text(position as nat, 10),
            CorruptedFileError::InvalidTagData { tag_id, position } => "Encountered invalid tag data for tag id [0x"@
                + number_text(tag_id as nat, 16) + "] at position "@ + number_text(
                position as nat,
                10,
            ),
            CorruptedFileError::HierarchyError { found_tag_id, current_parent_id } => "Found child tag ["@
                + number_text(found_tag_id as nat, 16) + "] when processing parent ["@
                + optional_text(
                match current_parent_id {
                    Some(id) => Some(id as nat),
                    None => None,
                },
                16,
            ) + "]"@,
            CorruptedFileError::OversizedChildElement { position, tag_id, size } => "Found an oversized tag [0x"@
                + number_text(tag_id as nat, 16) + "] of size "@ + number_text(size as nat, 10)
                + " at position "@ + number_text(position as nat, 10),
            CorruptedFileError::InvalidTagSize { position, tag_id, size } => "Found a tag [0x"@
                + number_text(tag_id as nat, 16) + "] of size "@ + number_text(size as nat, 10)
                + " that is over the limit at position "@ + number_text(position as nat, 10),
        }
    }

    /// A sentence that says what is wrong with the document.
    pub fn message(&self) -> (r: String)
        ensures
            r@ == self.message_text(),
    {
        match self {
            CorruptedFileError::InvalidTagId { tag_id, position } => {
                String::from_str("Encountered invalid tag id: ").concat(
                    hexadecimal(*tag_id).as_str(),
                ).concat(" at position ").concat(decimal(*position as u64).as_str())
            },
            CorruptedFileError::InvalidTagData { tag_id, position } => {
                String::from_str("Encountered invalid tag data for tag id [0x").concat(
                    hexadecimal(*tag_id).as_str(),
                ).concat("] at position ").concat(decimal(*position as u64).as_str())
            },
            CorruptedFileError::HierarchyError { found_tag_id, current_parent_id } => {
                String::from_str("Found child tag [").concat(
                    hexadecimal(*found_tag_id).as_str(),
                ).concat("] when processing parent [").concat(
                    optional(*current_parent_id, 16).as_str(),
                ).concat("]")
            },
            CorruptedFileError::OversizedChildElement { position, tag_id, size } => {
                String::from_str("Found an oversized tag [0x").concat(
                    hexadecimal(*tag_id).as_str(),
                ).concat("] of size ").concat(decimal(*size as u64).as_str()).concat(
                    " at position ",
                ).concat(decimal(*position as u64).as_str())
            },
            CorruptedFileError::InvalidTagSize { position, tag_id, size } => {
                String::from_str("Found a tag [0x").concat(hexadecimal(*tag_id).as_str()).concat(
                    "] of size ",
                ).concat(decimal(*size as u64).as_str()).concat(
                    " that is over the limit at position ",
                ).concat(decimal(*position as u64).as_str())
            },
        }
    }
}

impl TagIteratorError {
    /// The sentence that says what went wrong.
    pub open spec fn message_text(self) -> Seq<char> {
        match self {
            TagIteratorError::CorruptedFileData(err) => "Encountered corrupted data.  Message: "@
                + err.message_text(),
            TagIteratorError::UnexpectedEOF { tag_start, tag_id, tag_size, partial_data } => "Reached EOF unexpectedly. Partial tag data: {tag offset:"@
                + number_text(tag_start as nat, 10) + "} {id:"@ + optional_text(
                match tag_id {
                    Some(id) => Some(id as nat),
                    None => None,
                },
                16,
            ) + "} {size:"@ + optional_text(
                match tag_size {
                    Some(size) => Some(size as nat),
                    None => None,
                },
                10,
            ) + "}"@,
            TagIteratorError::CorruptedTagData { tag_id, problem } => "Error reading data for tag id (0x"@
                + number_text(tag_id as nat, 16) + "). "@ + problem.message_text(),
        }
    }

    /// A sentence that says what went wrong.
    pub fn message(&self) -> (r: String)
        ensures
            r@ == self.message_text(),
    {
        match self {
            TagIteratorError::CorruptedFileData(err) => {
                String::from_str("Encountered corrupted data.  Message: ").concat(
                    err.message().as_str(),
                )
            },
            TagIteratorError::UnexpectedEOF { tag_start, tag_id, tag_size, partial_data } => {
                let size: Option<u64> = match tag_size {
                    Some(size) => Some(*size as u64),
                    None => None,
                };
                String::from_str("Reached EOF unexpectedly. Partial tag data: {tag offset:").concat(
                    decimal(*tag_start as u64).as_str(),
                ).concat("} {id:").concat(optional(*tag_id, 16).as_str()).concat("} {size:").concat(
                    optional(size, 10).as_str(),
                ).concat("}")
            },
            TagIteratorError::CorruptedTagData { tag_id, problem } => {
                String::from_str("Error reading data for tag id (0x").concat(
                    hexadecimal(*tag_id).as_str(),
                ).concat("). ").concat(problem.message().as_str())
            },
        }
    }
}

impl TagWriterError {
    /// The sentence that says what went wrong.
    pub open spec fn message_text(self) -> Seq<char> {
        match self {
            TagWriterError::TagIdError(id) => "Tag id "@ + number_text(id as nat, 10)
                + " is not a valid vint"@,
            TagWriterError::TagSizeError(message) => "Problem writing data tag size. "@ + message@,
            TagWriterError::UnexpectedClosingTag { tag_id, expected_id } => match expected_id {
                Some(expected) => "Unexpected closing tag 0x'"@ + number_text(tag_id as nat, 16)
                    + "'. Expected 0x'"@ + number_text(expected as nat, 16) + "'"@,
                None => "Unexpected closing tag 0x'"@ + number_text(tag_id as nat, 16) + "'"@,
            },
        }
    }

    /// A sentence that says what went wrong.
    pub fn message(&self) -> (r: String)
        ensures
            r@ == self.message_text(),
    {
        match self {
            TagWriterError::TagIdError(id) => {
                String::from_str("Tag id ").concat(decimal(*id).as_str()).concat(
                    " is not a valid vint",
                )
            },
            TagWriterError::TagSizeError(message) => {
                String::from_str("Problem writing data tag size. ").concat(message.as_str())
            },
            TagWriterError::UnexpectedClosingTag { tag_id, expected_id } => match expected_id {
                Some(expected) => {
                    String::from_str("Unexpected closing tag 0x'").concat(
                        hexadecimal(*tag_id).as_str(),
                    ).concat("'. Expected 0x'").concat(hexadecimal(*expected).as_str()).concat("'")
                },
                None => {
                    String::from_str("Unexpected closing tag 0x'").concat(
                        hexadecimal(*tag_id).as_str(),
                    ).concat("'")
                },
            },
        }
    }
}

} // verus!
