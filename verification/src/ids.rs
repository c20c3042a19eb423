use vstd::prelude::*;

use crate::errors::HarvestError;

verus! {

/// A digit `0`-`9`, `a`-`f` or `A`-`F`, as a byte of ASCII text.
pub open spec fn is_hex_digit(b: u8) -> bool {
    (48 <= b <= 57) || (97 <= b <= 102) || (65 <= b <= 70)
}

/// The value of one hex digit.
pub open spec fn hex_val(b: u8) -> u8 {
    if 48 <= b <= 57 {
        (b - 48) as u8
    } else if 97 <= b <= 102 {
        (b - 87) as u8
    } else {
        (b - 55) as u8
    }
}

/// The lower-case hex digit for a value below 16.
pub open spec fn hex_digit_lower(v: u8) -> u8 {
    if v < 10 {
        (48 + v) as u8
    } else {
        (87 + v) as u8
    }
}

/// Whether `s` is exactly forty hex digits: the textual form of an object id.
pub open spec fn is_hex40(s: Seq<u8>) -> bool {
    s.len() == 40 && forall|i: int| 0 <= i < s.len() ==> is_hex_digit(#[trigger] s[i])
}

/// The bytes named by a sequence of hex digit pairs.
pub open spec fn hex_to_bytes(s: Seq<u8>) -> Seq<u8> {
    Seq::new((s.len() / 2) as nat, |i: int| (hex_val(s[2 * i]) * 16 + hex_val(s[2 * i + 1])) as u8)
}

/// The lower-case hex text for a sequence of bytes.
pub open spec fn bytes_to_hex(b: Seq<u8>) -> Seq<u8> {
    Seq::new(
        (b.len() * 2) as nat,
        |i: int|
            if i % 2 == 0 {
                hex_digit_lower(b[i / 2] / 16)
            } else {
                hex_digit_lower((b[i / 2] % 16) as u8)
            },
    )
}

/// A 20-byte SHA-1 object name.
///
/// Equality is by content; the id of an extracted object equals the SHA-1 of
/// its header-prefixed serialization, which the pack decoder establishes.
#[derive(Debug)]
pub struct ObjectId {
    bytes: Vec<u8>,
}

impl View for ObjectId {
    type V = Seq<u8>;

    closed spec fn view(&self) -> Seq<u8> {
        self.bytes@
    }
}

impl ObjectId {
    /// Every id holds exactly twenty bytes.
    pub open spec fn wf(&self) -> bool {
        self@.len() == 20
    }

    /// Parses forty hex digits into an id; any other input is rejected
    /// before it can reach the network.
    pub fn from_hex(hex: &[u8]) -> (r: Result<ObjectId, HarvestError>)
        ensures
            r is Ok <==> is_hex40(hex@),
            r matches Ok(id) ==> id.wf() && id@ == hex_to_bytes(hex@),
            r matches Err(e) ==> e is MalformedInputId,
    {
        if hex.len() != 40 {
            return Err(HarvestError::MalformedInputId);
        }
        let mut bytes: Vec<u8> = Vec::new();
        let mut i: usize = 0;
        while i < 40
            invariant
                i % 2 == 0,
                i <= 40,
                hex@.len() == 40,
                bytes@.len() == i / 2,
                forall|j: int| 0 <= j < i ==> is_hex_digit(#[trigger] hex@[j]),
                forall|j: int|
                    0 <= j < i / 2 ==> bytes@[j] == (hex_val(hex@[2 * j]) * 16 + hex_val(
                        hex@[2 * j + 1],
                    )) as u8,
            decreases 40 - i,
        {
            let hi = hex[i];
            let lo = hex[i + 1];
            if !hex_digit_value(hi).is_some() || !hex_digit_value(lo).is_some() {
                return Err(HarvestError::MalformedInputId);
            }
            let h = hex_digit_value(hi).unwrap();
            let l = hex_digit_value(lo).unwrap();
            bytes.push(h * 16 + l);
            i = i + 2;
        }
        let id = ObjectId { bytes };
        assert(id@ =~= hex_to_bytes(hex@));
        Ok(id)
    }

    /// An id made directly of twenty bytes, as read out of a pack entry.
    pub fn from_bytes(bytes: Vec<u8>) -> (r: ObjectId)
        requires
            bytes@.len() == 20,
        ensures
            r.wf() && r@ == bytes@,
    {
        ObjectId { bytes }
    }

    /// The forty-digit lower-case hex form, as wire-protocol text.
    pub fn to_hex_bytes(&self) -> (r: Vec<u8>)
        requires
            self.wf(),
        ensures
            r@ == bytes_to_hex(self@),
            r@.len() == 40,
    {
        let mut out: Vec<u8> = Vec::new();
        let mut i: usize = 0;
        while i < self.bytes.len()
            invariant
                self.wf(),
                i <= 20,
                self.bytes@.len() == 20,
                out@.len() == 2 * i,
                forall|j: int| 0 <= j < 2 * i ==> out@[j] == bytes_to_hex(self@)[j],
            decreases 20 - i,
        {
            let b = self.bytes[i];
            out.push(hex_digit_lower_exec(b / 16));
            out.push(hex_digit_lower_exec(b % 16));
            i = i + 1;
        }
        assert(out@ =~= bytes_to_hex(self@));
        out
    }

    /// The twenty raw bytes.
    pub fn as_bytes_ref(&self) -> (r: &[u8])
        ensures
            r@ == self@,
    {
        self.bytes.as_slice()
    }

    /// Content equality of two ids.
    pub fn eq_id(&self, other: &ObjectId) -> (r: bool)
        ensures
            r == (self@ == other@),
    {
        if self.bytes.len() != other.bytes.len() {
            return false;
        }
        let mut i: usize = 0;
        while i < self.bytes.len()
            invariant
                i <= self.bytes@.len(),
                self.bytes@.len() == other.bytes@.len(),
                forall|j: int| 0 <= j < i ==> self.bytes@[j] == other.bytes@[j],
            decreases self.bytes@.len() - i,
        {
            if self.bytes[i] != other.bytes[i] {
                return false;
            }
            i = i + 1;
        }
        assert(self.bytes@ =~= other.bytes@);
        true
    }

    /// A copy of the id.
    pub fn duplicate(&self) -> (r: ObjectId)
        ensures
            r@ == self@,
    {
        let mut bytes: Vec<u8> = Vec::new();
        let mut i: usize = 0;
        while i < self.bytes.len()
            invariant
                i <= self.bytes@.len(),
                bytes@ == self.bytes@.take(i as int),
            decreases self.bytes@.len() - i,
        {
            bytes.push(self.bytes[i]);
            assert(bytes@ =~= self.bytes@.take(i as int + 1));
            i = i + 1;
        }
        assert(bytes@ =~= self.bytes@);
        ObjectId { bytes }
    }
}

/// The value of one hex digit, or `None` for any other byte.
pub fn hex_digit_value(b: u8) -> (r: Option<u8>)
    ensures
        r is Some <==> is_hex_digit(b),
        r matches Some(v) ==> v == hex_val(b) && v < 16,
{
    if 48 <= b && b <= 57 {
        Some(b - 48)
    } else if 97 <= b && b <= 102 {
        Some(b - 87)
    } else if 65 <= b && b <= 70 {
        Some(b - 55)
    } else {
        None
    }
}

/// The lower-case hex digit for a value below 16.
pub fn hex_digit_lower_exec(v: u8) -> (r: u8)
    requires
        v < 16,
    ensures
        r == hex_digit_lower(v),
{
    if v < 10 {
        48 + v
    } else {
        87 + v
    }
}

/// Rendering an id as hex and parsing the hex back yields the same id:
/// the canonical forty-digit text names exactly one object.
pub proof fn lemma_hex_round_trip(b: Seq<u8>)
    requires
        b.len() == 20,
    ensures
        is_hex40(bytes_to_hex(b)),
        hex_to_bytes(bytes_to_hex(b)) == b,
{
    let h = bytes_to_hex(b);
    assert forall|i: int| 0 <= i < h.len() implies is_hex_digit(#[trigger] h[i]) by {
        let v = if i % 2 == 0 {
            b[i / 2] / 16
        } else {
            (b[i / 2] % 16) as u8
        };
        assert(v < 16);
    }
    assert forall|i: int| 0 <= i < 20 implies hex_to_bytes(h)[i] == b[i] by {
        assert(h[2 * i] == hex_digit_lower(b[i] / 16));
        assert(h[2 * i + 1] == hex_digit_lower((b[i] % 16) as u8));
        assert(hex_val(hex_digit_lower(b[i] / 16)) == b[i] / 16);
        assert(hex_val(hex_digit_lower((b[i] % 16) as u8)) == b[i] % 16);
        assert(b[i] / 16 * 16 + b[i] % 16 == b[i]);
    }
    assert(hex_to_bytes(h) =~= b);
}

} // verus!
