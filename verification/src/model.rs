//! Domain model: slot-based time, content-addressed intent identifiers,
//! the `Intent` commitment record and the `Absence` penalty record.
use sha2::Digest;
use sha2::Sha256;
use vstd::bytes::spec_u64_to_le_bytes;
use vstd::bytes::u64_to_le_bytes;
use vstd::prelude::*;
use vstd::string::StrSliceExecFns;
use vstd::string::StringSliceAdditionalSpecFns;
use vstd::utf8::encode_utf8;

verus! {

/// Time is defined as a discrete Slot number.
pub type Slot = u64;

/// Unique identifier for an Intent: the hex encoding of a SHA-256 digest
/// of the intent's fields.
#[derive(Debug, PartialEq, Eq, Hash)]
pub struct IntentId(pub String);

/// An Intent is a commitment to perform an act by a deadline, backed by
/// collateral posted by its creator. If the act is not observed by the
/// deadline, the Intent becomes an Absence.
#[derive(Debug)]
pub struct Intent {
    pub id: IntentId,
    pub creator: String,
    pub description: String,
    pub deadline: Slot,
    pub collateral: u64,
}

/// An Absence is the irrevocable record that an Intent was not fulfilled:
/// `declared_at` is the slot of the sweep that crystallized it.
#[derive(Debug)]
pub struct Absence {
    pub intent_id: IntentId,
    pub declared_at: Slot,
}

/// Mathematical image of an `Intent`: the string fields as character
/// sequences, everything else as plain integers.
pub struct IntentView {
    pub id: Seq<char>,
    pub creator: Seq<char>,
    pub description: Seq<char>,
    pub deadline: Slot,
    pub collateral: u64,
}

/// Mathematical image of an `Absence`.
pub struct AbsenceView {
    pub intent_id: Seq<char>,
    pub declared_at: Slot,
}

impl View for IntentId {
    type V = Seq<char>;

    open spec fn view(&self) -> Seq<char> {
        self.0@
    }
}

impl View for Intent {
    type V = IntentView;

    open spec fn view(&self) -> IntentView {
        IntentView {
            id: self.id@,
            creator: self.creator@,
            description: self.description@,
            deadline: self.deadline,
            collateral: self.collateral,
        }
    }
}

impl View for Absence {
    type V = AbsenceView;

    open spec fn view(&self) -> AbsenceView {
        AbsenceView { intent_id: self.intent_id@, declared_at: self.declared_at }
    }
}

/// The SHA-256 digest of a byte sequence, as a name: it is a pure function
/// of the input bytes, and nothing more is assumed of it.
pub uninterp spec fn sha256_of(data: Seq<u8>) -> Seq<u8>;

/// Relies on sha2::Sha256 through the RustCrypto `Digest::digest` entry
/// point: the SHA-256 digest depends on the input bytes alone and is 32
/// bytes long.
#[verifier::external_body]
fn sha256(data: &[u8]) -> (r: Vec<u8>)
    ensures
        r@ == sha256_of(data@),
        r@.len() == 32,
{
    Sha256::digest(data).to_vec()
}

/// Relies on the std documentation of `String::push`: it appends the given
/// character to the end of the string.
pub assume_specification[ String::push ](s: &mut String, ch: char)
    ensures
        final(s)@ == old(s)@.push(ch),
;

/// The lowercase hex character for a value below 16.
pub open spec fn hex_char(n: u8) -> char {
    if n < 10 {
        (n + 48) as char
    } else {
        (n + 87) as char
    }
}

/// The lowercase hex encoding of a byte sequence: two characters per byte,
/// high nibble first.
pub open spec fn hex_of(bytes: Seq<u8>) -> Seq<char> {
    Seq::new(
        bytes.len() * 2,
        |i: int|
            if i % 2 == 0 {
                hex_char(bytes[i / 2] / 16)
            } else {
                hex_char(bytes[i / 2] % 16)
            },
    )
}

fn hex_char_exec(n: u8) -> (c: char)
    requires
        n < 16,
    ensures
        c == hex_char(n),
{
    if n < 10 {
        (n + 48) as char
    } else {
        (n + 87) as char
    }
}

fn hex_encode(bytes: &Vec<u8>) -> (r: String)
    ensures
        r@ == hex_of(bytes@),
{
    let mut r = String::new();
    let mut i: usize = 0;
    while i < bytes.len()
        invariant
            i <= bytes@.len(),
            r@ == hex_of(bytes@).subrange(0, 2 * i as int),
        decreases bytes@.len() - i,
    {
        let b = bytes[i];
        r.push(hex_char_exec(b / 16));
        r.push(hex_char_exec(b % 16));
        i = i + 1;
        proof {
            assert(r@ =~= hex_of(bytes@).subrange(0, 2 * i as int));
        }
    }
    proof {
        assert(hex_of(bytes@).subrange(0, 2 * bytes@.len() as int) =~= hex_of(bytes@));
    }
    r
}

/// The exact byte serialization hashed into an intent's identifier: the
/// UTF-8 bytes of the creator, then of the description, then the
/// fixed-width little-endian encodings of deadline and collateral.
pub open spec fn intent_message(
    creator: Seq<char>,
    description: Seq<char>,
    deadline: Slot,
    collateral: u64,
) -> Seq<u8> {
    encode_utf8(creator) + encode_utf8(description) + spec_u64_to_le_bytes(deadline)
        + spec_u64_to_le_bytes(collateral)
}

/// The content-derived identifier of an intent: the hex encoding of the
/// SHA-256 digest of its serialized fields. Two intents with identical
/// fields collapse to the same identifier.
pub open spec fn intent_id_chars(
    creator: Seq<char>,
    description: Seq<char>,
    deadline: Slot,
    collateral: u64,
) -> Seq<char> {
    hex_of(sha256_of(intent_message(creator, description, deadline, collateral)))
}

impl Intent {
    /// Constructs an Intent whose identifier is derived from the four
    /// fields; a pure function of its inputs, with no validation.
    pub fn new(creator: &str, description: &str, deadline: Slot, collateral: u64) -> (r: Intent)
        ensures
            r@ == (IntentView {
                id: intent_id_chars(creator@, description@, deadline, collateral),
                creator: creator@,
                description: description@,
                deadline,
                collateral,
            }),
    {
        let mut intent = Intent {
            id: IntentId(String::new()),
            creator: creator.to_owned(),
            description: description.to_owned(),
            deadline,
            collateral,
        };
        intent.id = intent.calculate_id();
        intent
    }

    /// Recomputes the content-derived identifier from the intent's fields.
    pub fn calculate_id(&self) -> (r: IntentId)
        ensures
            r@ == intent_id_chars(self.creator@, self.description@, self.deadline, self.collateral),
    {
        let mut message: Vec<u8> = self.creator.as_str().as_bytes_vec();
        let mut rest = self.description.as_str().as_bytes_vec();
        message.append(&mut rest);
        let mut deadline_bytes = u64_to_le_bytes(self.deadline);
        message.append(&mut deadline_bytes);
        let mut collateral_bytes = u64_to_le_bytes(self.collateral);
        message.append(&mut collateral_bytes);
        let digest = sha256(message.as_slice());
        IntentId(hex_encode(&digest))
    }
}

impl Clone for IntentId {
    fn clone(&self) -> (r: Self)
        ensures
            r == *self,
    {
        IntentId(self.0.clone())
    }
}

impl Clone for Intent {
    fn clone(&self) -> (r: Self)
        ensures
            r == *self,
    {
        Intent {
            id: self.id.clone(),
            creator: self.creator.clone(),
            description: self.description.clone(),
            deadline: self.deadline,
            collateral: self.collateral,
        }
    }
}

impl Clone for Absence {
    fn clone(&self) -> (r: Self)
        ensures
            r == *self,
    {
        Absence { intent_id: self.intent_id.clone(), declared_at: self.declared_at }
    }
}

} // verus!
