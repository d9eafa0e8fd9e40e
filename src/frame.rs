//! The wire format of a single frame: its spec model, a checked parser that
//! returns a view into the caller's bytes, and the encoder.
use vstd::arithmetic::div_mod::{lemma_div_denominator, lemma_fundamental_div_mod};
use vstd::prelude::*;
use vstd::string::StringSliceAdditionalSpecFns;

verus! {

/// The largest header: two fixed bytes, eight length bytes, four mask bytes.
pub const MAX_HEADER_SIZE: usize = 14;

/// Why a byte range does not (yet) hold a frame.
#[derive(Debug, Clone, Copy, PartialEq, Eq, Structural)]
pub enum WsParsingError {
    /// Fewer bytes than the header needs; the payload size is not known yet.
    IncompleteHeader,
    /// The header is complete; this many payload bytes are still missing.
    IncompleteMessage(usize),
    /// An eight-byte length with its most significant bit set, or a frame
    /// larger than this machine can address.
    InvalidLength,
}

/// The kind of a frame, from the low four bits of its first byte.
#[derive(Debug, Clone, Copy, PartialEq, Eq, Structural)]
pub enum Opcode {
    Continuation,
    Text,
    Binary,
    Close,
    Ping,
    Pong,
    /// A reserved opcode, with its raw value.
    Invalid(u8),
}

/// How the header encodes the payload length.
#[derive(Debug, Clone, Copy, PartialEq, Eq, Structural)]
pub enum ContentLength {
    /// The 64-bit extended length follows (class 127).
    EightBytes,
    /// The 16-bit extended length follows (class 126).
    TwoBytes,
    /// The length is the class itself, 0 to 125.
    OneByte(u8),
}

pub open spec fn opcode_of(n: u8) -> Opcode {
    if n == 0x0 {
        Opcode::Continuation
    } else if n == 0x1 {
        Opcode::Text
    } else if n == 0x2 {
        Opcode::Binary
    } else if n == 0x8 {
        Opcode::Close
    } else if n == 0x9 {
        Opcode::Ping
    } else if n == 0xA {
        Opcode::Pong
    } else {
        Opcode::Invalid(n)
    }
}

/// The 4-bit value that stands for `op` on the wire.
pub open spec fn opcode_value(op: Opcode) -> u8 {
    match op {
        Opcode::Continuation => 0x0,
        Opcode::Text => 0x1,
        Opcode::Binary => 0x2,
        Opcode::Close => 0x8,
        Opcode::Ping => 0x9,
        Opcode::Pong => 0xA,
        Opcode::Invalid(n) => n,
    }
}

/// Close, Ping and Pong: the frames that are never fragmented.
pub open spec fn is_control(op: Opcode) -> bool {
    op == Opcode::Close || op == Opcode::Ping || op == Opcode::Pong
}

impl Opcode {
    /// The opcode that a 4-bit wire value stands for.
    pub fn from_u8(n: u8) -> (r: Opcode)
        ensures
            r == opcode_of(n),
    {
        if n == 0x0 {
            Opcode::Continuation
        } else if n == 0x1 {
            Opcode::Text
        } else if n == 0x2 {
            Opcode::Binary
        } else if n == 0x8 {
            Opcode::Close
        } else if n == 0x9 {
            Opcode::Ping
        } else if n == 0xA {
            Opcode::Pong
        } else {
            Opcode::Invalid(n)
        }
    }

    /// The wire value of this opcode.
    pub fn as_u8(&self) -> (r: u8)
        ensures
            r == opcode_value(*self),
    {
        match self {
            Opcode::Continuation => 0x0,
            Opcode::Text => 0x1,
            Opcode::Binary => 0x2,
            Opcode::Close => 0x8,
            Opcode::Ping => 0x9,
            Opcode::Pong => 0xA,
            Opcode::Invalid(n) => *n,
        }
    }

    pub fn is_control(&self) -> (r: bool)
        ensures
            r == is_control(*self),
    {
        match self {
            Opcode::Close | Opcode::Ping | Opcode::Pong => true,
            _ => false,
        }
    }
}

// ---------------------------------------------------------------------------
// Spec model of the wire format, over the bytes `w` that start at a frame.
// ---------------------------------------------------------------------------

/// The 7-bit length class of the second header byte.
pub open spec fn length_class(w: Seq<u8>) -> int {
    (w[1] as int) % 128
}

pub open spec fn mask_bit(w: Seq<u8>) -> bool {
    w[1] >= 128
}

/// How many extended-length bytes follow the two fixed header bytes.
pub open spec fn length_field_size(w: Seq<u8>) -> int {
    if length_class(w) == 127 {
        8
    } else if length_class(w) == 126 {
        2
    } else {
        0
    }
}

pub open spec fn header_size_of(w: Seq<u8>) -> int {
    2 + length_field_size(w) + if mask_bit(w) { 4int } else { 0int }
}

pub open spec fn be16(w: Seq<u8>, i: int) -> int {
    w[i] * 0x100 + w[i + 1]
}

pub open spec fn be32(w: Seq<u8>, i: int) -> int {
    w[i] * 0x1000000 + w[i + 1] * 0x10000 + w[i + 2] * 0x100 + w[i + 3]
}

pub open spec fn be64(w: Seq<u8>, i: int) -> int {
    w[i] * 0x100000000000000 + w[i + 1] * 0x1000000000000 + w[i + 2] * 0x10000000000
        + w[i + 3] * 0x100000000 + w[i + 4] * 0x1000000 + w[i + 5] * 0x10000 + w[i + 6]
        * 0x100 + w[i + 7]
}

/// The payload length that the header announces.
pub open spec fn data_len_of(w: Seq<u8>) -> int {
    if length_class(w) == 127 {
        be64(w, 2)
    } else if length_class(w) == 126 {
        be16(w, 2)
    } else {
        length_class(w)
    }
}

pub open spec fn frame_size_of(w: Seq<u8>) -> int {
    header_size_of(w) + data_len_of(w)
}

/// Where the four mask-key bytes start, when the mask bit is set.
pub open spec fn mask_offset(w: Seq<u8>) -> int {
    2 + length_field_size(w)
}

pub open spec fn fin_bit(w: Seq<u8>) -> bool {
    w[0] >= 128
}

pub open spec fn rsv_bit(w: Seq<u8>, k: int) -> bool {
    ((w[0] as int) / k) % 2 == 1
}

pub open spec fn opcode_bits(w: Seq<u8>) -> u8 {
    ((w[0] as int) % 16) as u8
}

/// The payload as it stands on the wire (still masked, if a key is set).
pub open spec fn masked_payload(w: Seq<u8>) -> Seq<u8> {
    w.subrange(header_size_of(w), frame_size_of(w))
}

/// The four key bytes of a masked frame.
pub open spec fn mask_key_bytes(w: Seq<u8>) -> Seq<u8> {
    w.subrange(mask_offset(w), mask_offset(w) + 4)
}

/// XOR of each byte with the key byte at its index modulo four.
pub open spec fn apply_mask(p: Seq<u8>, key: Seq<u8>) -> Seq<u8> {
    Seq::new(p.len(), |i: int| p[i] ^ key[i % 4])
}

/// The payload with the mask, if any, taken off.
pub open spec fn payload_of(w: Seq<u8>) -> Seq<u8> {
    if mask_bit(w) {
        apply_mask(masked_payload(w), mask_key_bytes(w))
    } else {
        masked_payload(w)
    }
}

/// The status code that a Close payload carries: its first two bytes, big-endian.
pub open spec fn close_code_of(payload: Seq<u8>) -> Option<u16> {
    if payload.len() >= 2 {
        Some(be16(payload, 0) as u16)
    } else {
        None
    }
}

/// The outcome of parsing the front of `w`: the size of the complete frame
/// that starts it, or what is missing.
pub open spec fn parse_spec(w: Seq<u8>) -> Result<nat, WsParsingError> {
    if w.len() < 2 || w.len() < header_size_of(w) {
        Err(WsParsingError::IncompleteHeader)
    } else if (length_class(w) == 127 && w[2] >= 128) || frame_size_of(w) > usize::MAX {
        Err(WsParsingError::InvalidLength)
    } else if w.len() < frame_size_of(w) {
        Err(WsParsingError::IncompleteMessage((frame_size_of(w) - w.len()) as usize))
    } else {
        Ok(frame_size_of(w) as nat)
    }
}

/// `w` is exactly one complete frame.
pub open spec fn is_frame(w: Seq<u8>) -> bool {
    parse_spec(w) == Ok::<nat, WsParsingError>(w.len())
}

/// Two byte strings that agree on the header of `a` announce the same frame.
pub proof fn lemma_header_agree(a: Seq<u8>, b: Seq<u8>)
    requires
        a.len() >= 2,
        a.len() >= header_size_of(a),
        b.len() >= header_size_of(a),
        forall|i: int| 0 <= i < header_size_of(a) ==> a[i] == b[i],
    ensures
        b.len() >= 2,
        length_class(b) == length_class(a),
        mask_bit(b) == mask_bit(a),
        header_size_of(b) == header_size_of(a),
        data_len_of(b) == data_len_of(a),
        frame_size_of(b) == frame_size_of(a),
        fin_bit(b) == fin_bit(a),
        opcode_bits(b) == opcode_bits(a),
        length_class(a) == 127 ==> b[2] == a[2],
        mask_bit(a) ==> mask_key_bytes(b) == mask_key_bytes(a),
{
    assert(a[0] == b[0]);
    assert(a[1] == b[1]);
    if mask_bit(a) {
        assert(mask_key_bytes(b) =~= mask_key_bytes(a));
    }
}

/// The payload length announced by the header at the front of `w`.
fn read_data_len(w: &[u8]) -> (r: u64)
    requires
        w@.len() >= 2,
        w@.len() >= header_size_of(w@),
    ensures
        r == data_len_of(w@),
{
    let class = w[1] % 128;
    if class == 127 {
        (w[2] as u64) * 0x100000000000000 + (w[3] as u64) * 0x1000000000000 + (w[4] as u64)
            * 0x10000000000 + (w[5] as u64) * 0x100000000 + (w[6] as u64) * 0x1000000 + (
        w[7] as u64) * 0x10000 + (w[8] as u64) * 0x100 + (w[9] as u64)
    } else if class == 126 {
        (w[2] as u64) * 0x100 + (w[3] as u64)
    } else {
        class as u64
    }
}

/// Appends `p` XORed with `key`, byte `i` with `key[i % 4]`.
fn push_masked(out: &mut Vec<u8>, p: &[u8], key: &[u8])
    requires
        key@.len() == 4,
    ensures
        final(out)@ == old(out)@ + apply_mask(p@, key@),
{
    let ghost start = out@;
    let mut i: usize = 0;
    while i < p.len()
        invariant
            key@.len() == 4,
            i <= p@.len(),
            out@ == start + apply_mask(p@.subrange(0, i as int), key@),
        decreases p@.len() - i,
    {
        out.push(p[i] ^ key[i % 4]);
        i = i + 1;
        assert(out@ =~= start + apply_mask(p@.subrange(0, i as int), key@));
    }
    assert(p@.subrange(0, i as int) =~= p@);
}

/// Appends `p` as it is.
pub(crate) fn push_bytes(out: &mut Vec<u8>, p: &[u8])
    ensures
        final(out)@ == old(out)@ + p@,
{
    let ghost start = out@;
    let mut i: usize = 0;
    while i < p.len()
        invariant
            i <= p@.len(),
            out@ == start + p@.subrange(0, i as int),
        decreases p@.len() - i,
    {
        out.push(p[i]);
        i = i + 1;
        assert(out@ =~= start + p@.subrange(0, i as int));
    }
    assert(p@.subrange(0, i as int) =~= p@);
}

/// A read-only view of one complete frame inside a caller's buffer.
pub struct Frame<'a> {
    bytes: &'a [u8],
}

impl<'a> Frame<'a> {
    #[verifier::type_invariant]
    closed spec fn well_formed(self) -> bool {
        is_frame(self.bytes@)
    }

    /// The frame's wire bytes.
    pub closed spec fn wire(self) -> Seq<u8> {
        self.bytes@
    }

    /// Total size of the frame: header plus payload.
    pub fn len(&self) -> (r: usize)
        ensures
            r == self.wire().len(),
            is_frame(self.wire()),
    {
        proof {
            use_type_invariant(self);
        }
        self.bytes.len()
    }

    pub fn header_size(&self) -> (r: usize)
        ensures
            r == header_size_of(self.wire()),
    {
        proof {
            use_type_invariant(self);
        }
        let class = self.bytes[1] % 128;
        let ext: usize = if class == 127 {
            8
        } else if class == 126 {
            2
        } else {
            0
        };
        let key: usize = if self.bytes[1] >= 128 {
            4
        } else {
            0
        };
        2 + ext + key
    }

    pub fn fin(&self) -> (r: bool)
        ensures
            r == fin_bit(self.wire()),
    {
        proof {
            use_type_invariant(self);
        }
        self.bytes[0] >= 128
    }

    pub fn rsv1(&self) -> (r: bool)
        ensures
            r == rsv_bit(self.wire(), 64),
    {
        proof {
            use_type_invariant(self);
        }
        (self.bytes[0] / 64) % 2 == 1
    }

    pub fn rsv2(&self) -> (r: bool)
        ensures
            r == rsv_bit(self.wire(), 32),
    {
        proof {
            use_type_invariant(self);
        }
        (self.bytes[0] / 32) % 2 == 1
    }

    pub fn rsv3(&self) -> (r: bool)
        ensures
            r == rsv_bit(self.wire(), 16),
    {
        proof {
            use_type_invariant(self);
        }
        (self.bytes[0] / 16) % 2 == 1
    }

    pub fn opcode(&self) -> (r: Opcode)
        ensures
            r == opcode_of(opcode_bits(self.wire())),
    {
        proof {
            use_type_invariant(self);
        }
        Opcode::from_u8(self.bytes[0] % 16)
    }

    pub fn is_close(&self) -> (r: bool)
        ensures
            r == (opcode_of(opcode_bits(self.wire())) == Opcode::Close),
    {
        match self.opcode() {
            Opcode::Close => true,
            _ => false,
        }
    }

    /// Same as `fin`: this frame ends its message.
    pub fn is_final(&self) -> (r: bool)
        ensures
            r == fin_bit(self.wire()),
    {
        self.fin()
    }

    pub fn has_mask(&self) -> (r: bool)
        ensures
            r == mask_bit(self.wire()),
    {
        proof {
            use_type_invariant(self);
        }
        self.bytes[1] >= 128
    }

    #[allow(non_snake_case)]
    pub fn ContentLengthByte(&self) -> (r: ContentLength)
        ensures
            length_class(self.wire()) == 127 ==> r == ContentLength::EightBytes,
            length_class(self.wire()) == 126 ==> r == ContentLength::TwoBytes,
            length_class(self.wire()) < 126 ==> r == ContentLength::OneByte(
                length_class(self.wire()) as u8,
            ),
    {
        proof {
            use_type_invariant(self);
        }
        let class = self.bytes[1] % 128;
        if class == 127 {
            ContentLength::EightBytes
        } else if class == 126 {
            ContentLength::TwoBytes
        } else {
            ContentLength::OneByte(class)
        }
    }

    /// The payload length that the header announces.
    pub fn data_len(&self) -> (r: usize)
        ensures
            r == data_len_of(self.wire()),
    {
        proof {
            use_type_invariant(self);
        }
        read_data_len(self.bytes) as usize
    }

    /// The mask key, when the mask bit is set.
    pub fn mask(&self) -> (r: Option<u32>)
        ensures
            r == if mask_bit(self.wire()) {
                Some(be32(self.wire(), mask_offset(self.wire())) as u32)
            } else {
                None::<u32>
            },
    {
        proof {
            use_type_invariant(self);
        }
        if self.has_mask() {
            let class = self.bytes[1] % 128;
            let offset: usize = if class == 127 {
                10
            } else if class == 126 {
                4
            } else {
                2
            };
            let b = self.bytes;
            Some(
                (b[offset] as u32) * 0x1000000 + (b[offset + 1] as u32) * 0x10000 + (b[offset
                    + 2] as u32) * 0x100 + (b[offset + 3] as u32),
            )
        } else {
            None
        }
    }

    /// The payload as it stands on the wire, without copying it.
    pub fn masked_data(&self) -> (r: &'a [u8])
        ensures
            r@ == masked_payload(self.wire()),
    {
        proof {
            use_type_invariant(self);
        }
        let start = self.header_size();
        &self.bytes[start..self.bytes.len()]
    }

    /// The payload with the mask, if any, taken off.
    pub fn unmasked_data(&self) -> (r: Vec<u8>)
        ensures
            r@ == payload_of(self.wire()),
    {
        proof {
            use_type_invariant(self);
        }
        let data = self.masked_data();
        let mut out: Vec<u8> = Vec::with_capacity(data.len());
        if self.has_mask() {
            let offset = self.header_size() - 4;
            let key = &self.bytes[offset..offset + 4];
            push_masked(&mut out, data, key);
        } else {
            push_bytes(&mut out, data);
        }
        out
    }

    /// The status code of a Close frame, when its payload carries one.
    pub fn close_code(&self) -> (r: Option<u16>)
        ensures
            r == if opcode_of(opcode_bits(self.wire())) == Opcode::Close {
                close_code_of(payload_of(self.wire()))
            } else {
                None::<u16>
            },
    {
        proof {
            use_type_invariant(self);
        }
        if self.is_close() && self.data_len() >= 2 {
            let data = self.unmasked_data();
            Some((data[0] as u16) * 0x100 + (data[1] as u16))
        } else {
            None
        }
    }

    /// The frame's wire bytes.
    pub fn as_bytes(&self) -> (r: &'a [u8])
        ensures
            r@ == self.wire(),
    {
        self.bytes
    }

    /// Parses the frame at the front of `slice`; on success returns it and
    /// the bytes after it. Never copies the payload.
    pub fn parse_slice(slice: &'a [u8]) -> (r: Result<(Frame<'a>, &'a [u8]), WsParsingError>)
        ensures
            match parse_spec(slice@) {
                Ok(n) => r matches Ok((f, rest)) && f.wire() == slice@.subrange(0, n as int)
                    && rest@ == slice@.subrange(n as int, slice@.len() as int),
                Err(e) => r == Err::<(Frame<'a>, &'a [u8]), WsParsingError>(e),
            },
    {
        if slice.len() < 2 {
            return Err(WsParsingError::IncompleteHeader);
        }
        let class = slice[1] % 128;
        let ext: usize = if class == 127 {
            8
        } else if class == 126 {
            2
        } else {
            0
        };
        let key: usize = if slice[1] >= 128 {
            4
        } else {
            0
        };
        let header = 2 + ext + key;
        if slice.len() < header {
            return Err(WsParsingError::IncompleteHeader);
        }
        if class == 127 && slice[2] >= 128 {
            return Err(WsParsingError::InvalidLength);
        }
        let data_len = read_data_len(slice);
        let size = header as u64 + data_len;
        if size > usize::MAX as u64 {
            return Err(WsParsingError::InvalidLength);
        }
        let size = size as usize;
        if slice.len() < size {
            return Err(WsParsingError::IncompleteMessage(size - slice.len()));
        }
        let (bytes, rest) = slice.split_at(size);
        proof {
            lemma_header_agree(slice@, bytes@);
        }
        Ok((Frame { bytes }, rest))
    }

    /// The frame at the front of `slice`, which the caller knows to be complete.
    pub fn from_slice_unchecked(slice: &'a [u8]) -> (r: Frame<'a>)
        requires
            parse_spec(slice@) is Ok,
        ensures
            r.wire() == slice@.subrange(0, parse_spec(slice@)->Ok_0 as int),
    {
        match Frame::parse_slice(slice) {
            Ok((frame, _)) => frame,
            Err(_) => {
                proof {
                    assert(false);
                }
                Frame { bytes: slice }
            },
        }
    }

    /// Encodes one frame: header, the key if one is given, and the payload
    /// XORed with that key. The length uses the minimal class.
    pub fn build(opcode: Opcode, fin: bool, payload: &[u8], mask: Option<u32>) -> (r: Vec<u8>)
        requires
            opcode_value(opcode) < 16,
            payload@.len() + MAX_HEADER_SIZE <= isize::MAX,
        ensures
            r@ == encode_frame(fin, opcode_value(opcode), payload@, mask),
    {
        let len = payload.len();
        let mut out: Vec<u8> = Vec::with_capacity(len + MAX_HEADER_SIZE);
        let first: u8 = if fin {
            128 + opcode.as_u8()
        } else {
            opcode.as_u8()
        };
        let mask_flag: u8 = if mask.is_some() {
            128
        } else {
            0
        };
        out.push(first);
        if len <= 125 {
            out.push(mask_flag + len as u8);
        } else if len <= 0xffff {
            out.push(mask_flag + 126);
            out.push((len / 0x100) as u8);
            out.push((len % 0x100) as u8);
        } else {
            let n = len as u64;
            out.push(mask_flag + 127);
            out.push((n / 0x100000000000000) as u8);
            out.push(((n / 0x1000000000000) % 0x100) as u8);
            out.push(((n / 0x10000000000) % 0x100) as u8);
            out.push(((n / 0x100000000) % 0x100) as u8);
            out.push(((n / 0x1000000) % 0x100) as u8);
            out.push(((n / 0x10000) % 0x100) as u8);
            out.push(((n / 0x100) % 0x100) as u8);
            out.push((n % 0x100) as u8);
        }
        assert(out@ =~= seq![first, out@[1]] + length_bytes(len as int));
        match mask {
            Some(k) => {
                let key: Vec<u8> = vec![
                    (k / 0x1000000) as u8,
                    ((k / 0x10000) % 0x100) as u8,
                    ((k / 0x100) % 0x100) as u8,
                    (k % 0x100) as u8,
                ];
                assert(key@ =~= u32_be_bytes(k));
                push_bytes(&mut out, key.as_slice());
                push_masked(&mut out, payload, key.as_slice());
            },
            None => {
                push_bytes(&mut out, payload);
            },
        }
        assert(out@ =~= encode_frame(fin, opcode_value(opcode), payload@, mask));
        out
    }

    /// A final Close frame carrying `code` (1000 when none is given).
    pub fn new_close(code: Option<u16>, mask: Option<u32>) -> (r: Vec<u8>)
        ensures
            r@ == encode_frame(
                true,
                0x8,
                u16_be_bytes(
                    match code {
                        Some(c) => c as int,
                        None => 1000,
                    },
                ),
                mask,
            ),
    {
        let c: u16 = match code {
            Some(c) => c,
            None => 1000,
        };
        let payload: Vec<u8> = vec![(c / 0x100) as u8, (c % 0x100) as u8];
        assert(payload@ =~= u16_be_bytes(c as int));
        Frame::build(Opcode::Close, true, payload.as_slice(), mask)
    }

    /// A final Close frame with an empty payload: no status code.
    pub fn new_close_empty(mask: Option<u32>) -> (r: Vec<u8>)
        ensures
            r@ == encode_frame(true, 0x8, Seq::empty(), mask),
    {
        let payload: Vec<u8> = Vec::new();
        Frame::build(Opcode::Close, true, payload.as_slice(), mask)
    }

    /// A single-frame Binary message.
    pub fn new_binary(buf: &[u8], mask: Option<u32>) -> (r: Vec<u8>)
        requires
            buf@.len() + MAX_HEADER_SIZE <= isize::MAX,
        ensures
            r@ == encode_frame(true, 0x2, buf@, mask),
    {
        Frame::build(Opcode::Binary, true, buf, mask)
    }

    /// A single-frame Text message.
    pub fn new_text(buf: &str, mask: Option<u32>) -> (r: Vec<u8>)
        requires
            buf.spec_bytes().len() + MAX_HEADER_SIZE <= isize::MAX,
        ensures
            r@ == encode_frame(true, 0x1, buf.spec_bytes(), mask),
    {
        let bytes = buf.as_bytes();
        Frame::build(Opcode::Text, true, bytes, mask)
    }

    /// A Ping frame, with an empty payload when none is given.
    pub fn new_ping(buf: Option<&[u8]>, mask: Option<u32>) -> (r: Vec<u8>)
        requires
            buf matches Some(b) ==> b@.len() <= 125,
        ensures
            r@ == encode_frame(
                true,
                0x9,
                match buf {
                    Some(b) => b@,
                    None => Seq::empty(),
                },
                mask,
            ),
    {
        match buf {
            Some(b) => Frame::build(Opcode::Ping, true, b, mask),
            None => {
                let empty: Vec<u8> = Vec::new();
                Frame::build(Opcode::Ping, true, empty.as_slice(), mask)
            },
        }
    }

    /// A Pong frame, with an empty payload when none is given.
    pub fn new_pong(buf: Option<&[u8]>, mask: Option<u32>) -> (r: Vec<u8>)
        requires
            buf matches Some(b) ==> b@.len() <= 125,
        ensures
            r@ == encode_frame(
                true,
                0xA,
                match buf {
                    Some(b) => b@,
                    None => Seq::empty(),
                },
                mask,
            ),
    {
        match buf {
            Some(b) => Frame::build(Opcode::Pong, true, b, mask),
            None => {
                let empty: Vec<u8> = Vec::new();
                Frame::build(Opcode::Pong, true, empty.as_slice(), mask)
            },
        }
    }

    /// Cuts a message of `total` bytes into frames of at most `max_frame`
    /// bytes, as `fragment_plan` lays out.
    pub fn fragment_message(opcode: Opcode, total: usize, max_frame: usize) -> (r: Vec<Fragment>)
        requires
            max_frame > 0,
        ensures
            r@ == fragment_plan(opcode, total as int, max_frame as int),
    {
        let mut out: Vec<Fragment> = Vec::new();
        if total < max_frame {
            out.push(Fragment { opcode, fin: true, start: 0, len: total });
            assert(out@ =~= fragment_plan(opcode, total as int, max_frame as int));
            return out;
        }
        out.push(Fragment { opcode, fin: false, start: 0, len: max_frame });
        let mut start: usize = max_frame;
        while start < total
            invariant
                max_frame <= start,
                max_frame > 0,
                out@ + continuation_chunks(start as int, total as int, max_frame as int) == seq![
                    Fragment { opcode, fin: false, start: 0, len: max_frame },
                ] + continuation_chunks(max_frame as int, total as int, max_frame as int),
            decreases total - start,
        {
            let len = if total - start < max_frame {
                total - start
            } else {
                max_frame
            };
            let ghost before = out@;
            out.push(Fragment { opcode: Opcode::Continuation, fin: false, start, len });
            let ghost rest = continuation_chunks(start + max_frame, total as int, max_frame as int);
            assert(before + continuation_chunks(start as int, total as int, max_frame as int)
                =~= out@ + rest);
            if total - start <= max_frame {
                assert(rest =~= Seq::<Fragment>::empty());
                start = total;
            } else {
                start = start + max_frame;
            }
        }
        out.push(Fragment { opcode: Opcode::Continuation, fin: true, start: total, len: 0 });
        assert(out@ =~= fragment_plan(opcode, total as int, max_frame as int));
        out
    }

}

// ---------------------------------------------------------------------------
// Encoding
// ---------------------------------------------------------------------------

pub open spec fn u16_be_bytes(n: int) -> Seq<u8> {
    seq![(n / 0x100) as u8, (n % 0x100) as u8]
}

pub open spec fn u32_be_bytes(k: u32) -> Seq<u8> {
    seq![
        (k / 0x1000000) as u8,
        ((k / 0x10000) % 0x100) as u8,
        ((k / 0x100) % 0x100) as u8,
        (k % 0x100) as u8,
    ]
}

pub open spec fn u64_be_bytes(n: u64) -> Seq<u8> {
    seq![
        (n / 0x100000000000000) as u8,
        ((n / 0x1000000000000) % 0x100) as u8,
        ((n / 0x10000000000) % 0x100) as u8,
        ((n / 0x100000000) % 0x100) as u8,
        ((n / 0x1000000) % 0x100) as u8,
        ((n / 0x10000) % 0x100) as u8,
        ((n / 0x100) % 0x100) as u8,
        (n % 0x100) as u8,
    ]
}

/// The minimal length class for a payload of `len` bytes.
pub open spec fn length_class_for(len: int) -> int {
    if len <= 125 {
        len
    } else if len <= 0xffff {
        126
    } else {
        127
    }
}

/// The extended-length bytes for a payload of `len` bytes.
pub open spec fn length_bytes(len: int) -> Seq<u8> {
    if len <= 125 {
        Seq::empty()
    } else if len <= 0xffff {
        u16_be_bytes(len)
    } else {
        u64_be_bytes(len as u64)
    }
}

/// The wire bytes of one frame: header, key if any, and the (masked) payload.
pub open spec fn encode_frame(fin: bool, opcode: u8, payload: Seq<u8>, mask: Option<u32>) -> Seq<
    u8,
> {
    let b0 = ((if fin { 128int } else { 0int }) + opcode) as u8;
    let b1 = ((if mask is Some { 128int } else { 0int }) + length_class_for(
        payload.len() as int,
    )) as u8;
    seq![b0, b1] + length_bytes(payload.len() as int) + match mask {
        Some(k) => u32_be_bytes(k) + apply_mask(payload, u32_be_bytes(k)),
        None => payload,
    }
}

/// One frame of a message cut into frames: its opcode, whether it ends the
/// message, and the payload bytes it carries.
#[derive(Debug, Clone, Copy, PartialEq, Eq, Structural)]
pub struct Fragment {
    pub opcode: Opcode,
    pub fin: bool,
    pub start: usize,
    pub len: usize,
}

/// Continuation frames of at most `max` bytes for `[start, total)`.
pub open spec fn continuation_chunks(start: int, total: int, max: int) -> Seq<Fragment>
    decreases (if start < total {
        total - start
    } else {
        0
    }),
{
    if start >= total || max <= 0 {
        Seq::empty()
    } else {
        let len = if total - start < max {
            total - start
        } else {
            max
        };
        let chunk = Fragment {
            opcode: Opcode::Continuation,
            fin: false,
            start: start as usize,
            len: len as usize,
        };
        seq![chunk] + continuation_chunks(start + max, total, max)
    }
}

/// How a message of `total` bytes goes out in frames of at most `max`
/// bytes: one final frame when it is shorter than `max`; otherwise a first
/// frame of `max` bytes, continuations for the rest, and an empty final
/// continuation.
pub open spec fn fragment_plan(opcode: Opcode, total: int, max: int) -> Seq<Fragment> {
    if total < max {
        seq![Fragment { opcode, fin: true, start: 0, len: total as usize }]
    } else {
        seq![Fragment { opcode, fin: false, start: 0, len: max as usize }] + continuation_chunks(
            max,
            total,
            max,
        ) + seq![
            Fragment { opcode: Opcode::Continuation, fin: true, start: total as usize, len: 0 },
        ]
    }
}

proof fn lemma_be32_round_trip(k: u32)
    ensures
        be32(u32_be_bytes(k), 0) == k,
{
    let x = k as int;
    let s = u32_be_bytes(k);
    let q1 = x / 0x100;
    let q2 = q1 / 0x100;
    let q3 = q2 / 0x100;
    lemma_div_denominator(x, 0x100, 0x100);
    lemma_div_denominator(x, 0x10000, 0x100);
    assert(s[3] == x % 0x100);
    assert(s[2] == q1 % 0x100);
    assert(s[1] == q2 % 0x100);
    assert(s[0] == q3);
    lemma_fundamental_div_mod(x, 0x100);
    lemma_fundamental_div_mod(q1, 0x100);
    lemma_fundamental_div_mod(q2, 0x100);
}

proof fn lemma_be64_round_trip(n: u64)
    ensures
        be64(u64_be_bytes(n), 0) == n,
{
    let x = n as int;
    let s = u64_be_bytes(n);
    let q1 = x / 0x100;
    let q2 = q1 / 0x100;
    let q3 = q2 / 0x100;
    let q4 = q3 / 0x100;
    let q5 = q4 / 0x100;
    let q6 = q5 / 0x100;
    let q7 = q6 / 0x100;
    lemma_div_denominator(x, 0x100, 0x100);
    lemma_div_denominator(x, 0x10000, 0x100);
    lemma_div_denominator(x, 0x1000000, 0x100);
    lemma_div_denominator(x, 0x100000000, 0x100);
    lemma_div_denominator(x, 0x10000000000, 0x100);
    lemma_div_denominator(x, 0x1000000000000, 0x100);
    assert(s[7] == x % 0x100);
    assert(s[6] == q1 % 0x100);
    assert(s[5] == q2 % 0x100);
    assert(s[4] == q3 % 0x100);
    assert(s[3] == q4 % 0x100);
    assert(s[2] == q5 % 0x100);
    assert(s[1] == q6 % 0x100);
    assert(s[0] == q7);
    lemma_fundamental_div_mod(x, 0x100);
    lemma_fundamental_div_mod(q1, 0x100);
    lemma_fundamental_div_mod(q2, 0x100);
    lemma_fundamental_div_mod(q3, 0x100);
    lemma_fundamental_div_mod(q4, 0x100);
    lemma_fundamental_div_mod(q5, 0x100);
    lemma_fundamental_div_mod(q6, 0x100);
}

/// Masking twice with the same key gives back the payload.
pub proof fn lemma_mask_involution(p: Seq<u8>, key: Seq<u8>)
    requires
        key.len() == 4,
    ensures
        apply_mask(apply_mask(p, key), key) == p,
{
    assert forall|i: int| 0 <= i < p.len() implies apply_mask(apply_mask(p, key), key)[i]
        == p[i] by {
        let (a, k) = (p[i], key[i % 4]);
        assert((a ^ k) ^ k == a) by (bit_vector);
    }
    assert(apply_mask(apply_mask(p, key), key) =~= p);
}

/// The header of an encoded frame: its first two bytes and the length it announces.
proof fn lemma_encoded_header(fin: bool, opcode: u8, payload: Seq<u8>, mask: Option<u32>)
    requires
        opcode < 16,
        payload.len() + MAX_HEADER_SIZE <= isize::MAX,
    ensures
        ({
            let w = encode_frame(fin, opcode, payload, mask);
            let len = payload.len() as int;
            &&& w.len() >= 2
            &&& fin_bit(w) == fin
            &&& !rsv_bit(w, 64) && !rsv_bit(w, 32) && !rsv_bit(w, 16)
            &&& opcode_bits(w) == opcode
            &&& mask_bit(w) == mask is Some
            &&& length_class(w) == length_class_for(len)
            &&& length_field_size(w) == length_bytes(len).len()
            &&& w.len() >= 2 + length_bytes(len).len()
            &&& w.subrange(2, 2 + length_bytes(len).len() as int) == length_bytes(len)
            &&& w.subrange(2 + length_bytes(len).len() as int, w.len() as int) == match mask {
                Some(k) => u32_be_bytes(k) + apply_mask(payload, u32_be_bytes(k)),
                None => payload,
            }
        }),
{
    let w = encode_frame(fin, opcode, payload, mask);
    let len = payload.len() as int;
    let ext = length_bytes(len);
    let body = match mask {
        Some(k) => u32_be_bytes(k) + apply_mask(payload, u32_be_bytes(k)),
        None => payload,
    };
    assert(w[0] as int == (if fin { 128int } else { 0int }) + opcode);
    assert(w[1] as int == (if mask is Some { 128int } else { 0int }) + length_class_for(len));
    assert(w.subrange(2, 2 + ext.len() as int) =~= ext);
    assert(w.subrange(2 + ext.len() as int, w.len() as int) =~= body);
}

/// The length an encoded header announces is the payload length.
proof fn lemma_encoded_length(w: Seq<u8>, len: int)
    requires
        0 <= len,
        len + MAX_HEADER_SIZE <= isize::MAX,
        w.len() >= 2,
        length_class(w) == length_class_for(len),
        length_field_size(w) == length_bytes(len).len(),
        w.len() >= 2 + length_bytes(len).len(),
        w.subrange(2, 2 + length_bytes(len).len() as int) == length_bytes(len),
    ensures
        data_len_of(w) == len,
        length_class(w) == 127 ==> w[2] < 128,
{
    let ext = length_bytes(len);
    if len > 0xffff {
        lemma_be64_round_trip(len as u64);
        assert(be64(w, 2) == be64(ext, 0)) by {
            assert(forall|i: int| 0 <= i < 8 ==> w[2 + i] == #[trigger] ext[i]) by {
                assert forall|i: int| 0 <= i < 8 implies w[2 + i] == #[trigger] ext[i] by {
                    assert(w.subrange(2, 10)[i] == w[2 + i]);
                }
            }
        }
        assert(w[2] == ext[0]) by {
            assert(w.subrange(2, 10)[0] == w[2]);
        }
        assert(len as u64 / 0x100000000000000 < 128) by {
            assert(len < 0x8000000000000000);
        }
    } else if len > 125 {
        assert(w[2] == ext[0] && w[3] == ext[1]) by {
            assert(w.subrange(2, 4)[0] == w[2]);
            assert(w.subrange(2, 4)[1] == w[3]);
        }
    }
}

/// Encoding a frame and parsing it back gives what went in: the frame is
/// complete, its header fields are the ones chosen, the length class is the
/// minimal one for the payload size, and unmasking restores the payload.
pub proof fn lemma_round_trip(fin: bool, opcode: u8, payload: Seq<u8>, mask: Option<u32>)
    requires
        opcode < 16,
        payload.len() + MAX_HEADER_SIZE <= isize::MAX,
    ensures
        ({
            let w = encode_frame(fin, opcode, payload, mask);
            &&& is_frame(w)
            &&& fin_bit(w) == fin
            &&& !rsv_bit(w, 64) && !rsv_bit(w, 32) && !rsv_bit(w, 16)
            &&& opcode_bits(w) == opcode
            &&& mask_bit(w) == mask is Some
            &&& length_class(w) == length_class_for(payload.len() as int)
            &&& data_len_of(w) == payload.len()
            &&& (mask matches Some(k) ==> be32(w, mask_offset(w)) == k)
            &&& payload_of(w) == payload
        }),
{
    let w = encode_frame(fin, opcode, payload, mask);
    let len = payload.len() as int;
    let ext = length_bytes(len);
    let body_start = 2 + ext.len() as int;
    let body = w.subrange(body_start, w.len() as int);
    lemma_encoded_header(fin, opcode, payload, mask);
    lemma_encoded_length(w, len);
    match mask {
        Some(k) => {
            let key = u32_be_bytes(k);
            assert(header_size_of(w) == body_start + 4);
            assert(mask_key_bytes(w) =~= key) by {
                assert forall|i: int| 0 <= i < 4 implies mask_key_bytes(w)[i] == key[i] by {
                    assert(body[i] == w[body_start + i]);
                }
            }
            assert(be32(w, mask_offset(w)) == be32(key, 0)) by {
                assert forall|i: int| 0 <= i < 4 implies w[body_start + i] == key[i] by {
                    assert(body[i] == w[body_start + i]);
                }
            }
            lemma_be32_round_trip(k);
            assert(masked_payload(w) =~= apply_mask(payload, key)) by {
                assert forall|i: int| 0 <= i < len implies masked_payload(w)[i] == apply_mask(
                    payload,
                    key,
                )[i] by {
                    assert(body[4 + i] == w[body_start + 4 + i]);
                }
            }
            lemma_mask_involution(payload, key);
        },
        None => {
            assert(header_size_of(w) == body_start);
            assert(masked_payload(w) =~= payload) by {
                assert forall|i: int| 0 <= i < len implies masked_payload(w)[i] == payload[i] by {
                    assert(body[i] == w[body_start + i]);
                }
            }
        },
    }
}

} // verus!
