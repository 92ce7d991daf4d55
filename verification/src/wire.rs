//! The field layer of the protobuf wire format: a message is a run of fields,
//! each a key (tag and wire type) followed by its payload.
use crate::bytes::to_vec;
use crate::text;
use crate::text::decimal;
use vstd::prelude::*;
use vstd::string::*;

verus! {

/// The base-128 encoding of `v`, least significant group first. Every byte but
/// the last has its high bit set.
pub open spec fn varint(v: nat) -> Seq<u8>
    decreases v,
{
    if v < 128 {
        seq![v as u8]
    } else {
        seq![(128 + v % 128) as u8] + varint(v / 128)
    }
}

/// Reads a base-128 number of which `at` bytes have been read before, from
/// position `at` of `s`: the number and how many bytes it took. There is none
/// where the bytes run out, where the tenth byte is reached with its high bit
/// set, or where that byte would carry the number past 64 bits.
pub open spec fn varint_from(s: Seq<u8>, at: nat) -> Option<(nat, nat)>
    decreases 10 - at,
{
    if at >= 10 || at >= s.len() {
        None
    } else if s[at as int] < 128 {
        if at == 9 && s[at as int] >= 2 {
            None
        } else {
            Some((s[at as int] as nat, 1nat))
        }
    } else {
        match varint_from(s, at + 1) {
            Some((v, n)) => Some(((s[at as int] - 128 + 128 * v) as nat, n + 1)),
            None => None,
        }
    }
}

/// How many levels of embedded messages and groups a message may have.
pub const NESTING_LIMIT: u32 = 100;

/// What can be wrong with an encoding.
#[derive(Clone, Copy, Debug, PartialEq, Eq, Structural)]
pub enum WireFault {
    /// A number that does not end, or has more than 64 bits.
    InvalidVarint,
    /// A key that has more than 32 bits.
    InvalidKey(u64),
    /// A wire type that there is none of.
    InvalidWireType(u64),
    /// The tag zero.
    InvalidTag,
    /// A payload that runs past the end.
    Underflow,
    /// A field that runs past the end of its message.
    LengthExceeded,
    /// The end of a group that was not begun.
    UnexpectedEndGroup,
    /// More levels than there may be.
    NestingLimit,
    /// A wire type that is not the one of the field, and the one that is.
    WrongWireType(u64, u64),
}

/// The name of a wire type.
pub open spec fn wire_type_name(wire: u64) -> Seq<char> {
    if wire == 0 {
        "Varint"@
    } else if wire == 1 {
        "SixtyFourBit"@
    } else if wire == 2 {
        "LengthDelimited"@
    } else if wire == 3 {
        "StartGroup"@
    } else if wire == 4 {
        "EndGroup"@
    } else {
        "ThirtyTwoBit"@
    }
}

/// The name of a wire type.
fn wire_name(wire: u64) -> (r: &'static str)
    ensures
        r@ == wire_type_name(wire),
{
    if wire == 0 {
        "Varint"
    } else if wire == 1 {
        "SixtyFourBit"
    } else if wire == 2 {
        "LengthDelimited"
    } else if wire == 3 {
        "StartGroup"
    } else if wire == 4 {
        "EndGroup"
    } else {
        "ThirtyTwoBit"
    }
}

impl WireFault {
    /// The text of the fault.
    pub open spec fn text(self) -> Seq<char> {
        match self {
            WireFault::InvalidVarint => "invalid varint"@,
            WireFault::InvalidKey(key) => "invalid key value: "@ + text::decimal_text(key as nat),
            WireFault::InvalidWireType(wire) => "invalid wire type value: "@ + text::decimal_text(
                wire as nat,
            ),
            WireFault::InvalidTag => "invalid tag value: 0"@,
            WireFault::Underflow => "buffer underflow"@,
            WireFault::LengthExceeded => "delimited length exceeded"@,
            WireFault::UnexpectedEndGroup => "unexpected end group tag"@,
            WireFault::NestingLimit => "recursion limit reached"@,
            WireFault::WrongWireType(wire, expected) => "invalid wire type: "@ + wire_type_name(
                wire,
            ) + " (expected "@ + wire_type_name(expected) + ")"@,
        }
    }

    /// The text of the fault.
    pub fn to_string(&self) -> (r: String)
        ensures
            r@ == self.text(),
    {
        match self {
            WireFault::InvalidVarint => "invalid varint".to_owned(),
            WireFault::InvalidKey(key) => "invalid key value: ".to_owned().concat(
                decimal(*key).as_str(),
            ),
            WireFault::InvalidWireType(wire) => "invalid wire type value: ".to_owned().concat(
                decimal(*wire).as_str(),
            ),
            WireFault::InvalidTag => "invalid tag value: 0".to_owned(),
            WireFault::Underflow => "buffer underflow".to_owned(),
            WireFault::LengthExceeded => "delimited length exceeded".to_owned(),
            WireFault::UnexpectedEndGroup => "unexpected end group tag".to_owned(),
            WireFault::NestingLimit => "recursion limit reached".to_owned(),
            WireFault::WrongWireType(wire, expected) => "invalid wire type: ".to_owned().concat(
                wire_name(*wire),
            ).concat(" (expected ").concat(wire_name(*expected)).concat(")"),
        }
    }
}

/// The key at the start of `s`: the tag, the wire type, and how many bytes it takes.
pub open spec fn key_at(s: Seq<u8>) -> Result<(u32, u64, nat), WireFault> {
    match varint_from(s, 0) {
        None => Err(WireFault::InvalidVarint),
        Some((key, n)) => if key > u32::MAX {
            Err(WireFault::InvalidKey(key as u64))
        } else if key % 8 > 5 {
            Err(WireFault::InvalidWireType((key % 8) as u64))
        } else if key / 8 == 0 {
            Err(WireFault::InvalidTag)
        } else {
            Ok(((key / 8) as u32, (key % 8) as u64, n))
        },
    }
}

/// The payload of a length-delimited field at the start of `s`: how many bytes its length
/// takes, and the length.
pub open spec fn length_at(s: Seq<u8>) -> Result<(nat, nat), WireFault> {
    match varint_from(s, 0) {
        None => Err(WireFault::InvalidVarint),
        Some((len, n)) => if len > s.len() - n {
            Err(WireFault::Underflow)
        } else {
            Ok((n, len))
        },
    }
}

/// How many bytes a payload takes at the start of `s` that nobody asks for, at most `depth`
/// levels above the deepest there may be.
pub open spec fn skipped(wire: u64, tag: u32, s: Seq<u8>, depth: u32) -> Result<nat, WireFault>
    decreases s.len(), 1nat,
{
    if depth == 0 {
        Err(WireFault::NestingLimit)
    } else if wire == 0 {
        match varint_from(s, 0) {
            None => Err(WireFault::InvalidVarint),
            Some((_, n)) => Ok(n),
        }
    } else if wire == 1 {
        if s.len() < 8 {
            Err(WireFault::Underflow)
        } else {
            Ok(8)
        }
    } else if wire == 2 {
        match length_at(s) {
            Err(f) => Err(f),
            Ok((n, len)) => Ok(n + len),
        }
    } else if wire == 3 {
        group_skipped(tag, s, depth)
    } else if wire == 4 {
        Err(WireFault::UnexpectedEndGroup)
    } else {
        if s.len() < 4 {
            Err(WireFault::Underflow)
        } else {
            Ok(4)
        }
    }
}

/// How many bytes the rest of a group takes at the start of `s`: fields up to the end of
/// the group, which has the group's tag.
pub open spec fn group_skipped(tag: u32, s: Seq<u8>, depth: u32) -> Result<nat, WireFault>
    decreases s.len(), 0nat,
{
    match key_at(s) {
        Err(f) => Err(f),
        Ok((inner, wire, n)) => if wire == 4 {
            if inner != tag {
                Err(WireFault::UnexpectedEndGroup)
            } else {
                Ok(n)
            }
        } else if !(0 < n <= s.len()) {
            Err(WireFault::InvalidVarint)
        } else {
            match skipped(wire, inner, s.skip(n as int), (depth - 1) as u32) {
                Err(f) => Err(f),
                Ok(m) => if n + m > s.len() {
                    Err(WireFault::Underflow)
                } else {
                    match group_skipped(tag, s.skip((n + m) as int), depth) {
                        Err(f) => Err(f),
                        Ok(k) => Ok(n + m + k),
                    }
                },
            }
        },
    }
}

/// A number is read alike where the bytes end anywhere behind it.
pub proof fn lemma_varint_take(s: Seq<u8>, at: nat, t: int)
    requires
        varint_from(s, at) matches Some((v, n)) && at + n <= t,
        t <= s.len(),
    ensures
        varint_from(s.take(t), at) == varint_from(s, at),
    decreases 10 - at,
{
    lemma_varint_from_bounds(s, at);
    if s[at as int] >= 128 {
        lemma_varint_take(s, at + 1, t);
    }
}

/// A payload is skipped alike where the bytes end anywhere behind it.
pub proof fn lemma_skipped_take(wire: u64, tag: u32, s: Seq<u8>, depth: u32, t: int)
    requires
        skipped(wire, tag, s, depth) matches Ok(m) && m <= t,
        t <= s.len(),
    ensures
        skipped(wire, tag, s.take(t), depth) == skipped(wire, tag, s, depth),
    decreases s.len(), 1nat,
{
    if wire == 0 || wire == 2 {
        lemma_varint_take(s, 0, t);
    } else if wire == 3 {
        lemma_group_take(tag, s, depth, t);
    }
}

proof fn lemma_group_take(tag: u32, s: Seq<u8>, depth: u32, t: int)
    requires
        group_skipped(tag, s, depth) matches Ok(m) && m <= t,
        t <= s.len(),
    ensures
        group_skipped(tag, s.take(t), depth) == group_skipped(tag, s, depth),
    decreases s.len(), 0nat,
{
    let (inner, wire, n) = key_at(s)->Ok_0;
    lemma_varint_take(s, 0, t);
    if wire != 4 {
        let rest = s.skip(n as int);
        let m = skipped(wire, inner, rest, (depth - 1) as u32)->Ok_0;
        assert(s.take(t).skip(n as int) =~= rest.take(t - n));
        lemma_skipped_take(wire, inner, rest, (depth - 1) as u32, t - n);
        let more = s.skip((n + m) as int);
        assert(s.take(t).skip((n + m) as int) =~= more.take(t - n - m));
        lemma_group_take(tag, more, depth, t - n - m);
    }
}

/// Appends `value` with `prost::encoding::encode_varint`, which writes the
/// base-128 encoding of its argument.
#[verifier::external_body]
pub(crate) fn put_varint(value: u64, out: &mut Vec<u8>)
    ensures
        final(out)@ == old(out)@ + varint(value as nat),
{
    prost::encoding::encode_varint(value, out);
}

/// Reads a number with `prost::encoding::decode_varint`: the number and how
/// many bytes are left behind it, or nothing where that function fails.
#[verifier::external_body]
pub(crate) fn get_varint(bytes: &[u8]) -> (r: Option<(u64, usize)>)
    ensures
        match varint_from(bytes@, 0) {
            Some((v, n)) => r matches Some((x, left)) && x == v && left == bytes@.len() - n,
            None => r is None,
        },
{
    let mut rest = bytes;
    match prost::encoding::decode_varint(&mut rest) {
        Ok(value) => Some((value, rest.len())),
        Err(_) => None,
    }
}

/// Reads the key at the start of `s`.
pub fn get_key(s: &[u8]) -> (r: Result<(u32, u64, usize), WireFault>)
    ensures
        match key_at(s@) {
            Ok((tag, wire, n)) => r matches Ok((t, w, m)) && t == tag && w == wire && m == n && 1 <= n
                <= s@.len(),
            Err(f) => r == Err::<(u32, u64, usize), WireFault>(f),
        },
{
    proof {
        lemma_varint_from_bounds(s@, 0);
    }
    match get_varint(s) {
        None => Err(WireFault::InvalidVarint),
        Some((key, left)) => {
            if key > 0xffff_ffff {
                Err(WireFault::InvalidKey(key))
            } else if key % 8 > 5 {
                Err(WireFault::InvalidWireType(key % 8))
            } else if key / 8 == 0 {
                Err(WireFault::InvalidTag)
            } else {
                Ok(((key / 8) as u32, key % 8, s.len() - left))
            }
        },
    }
}

/// Reads the length at the start of `s`.
pub fn get_length(s: &[u8]) -> (r: Result<(usize, usize), WireFault>)
    ensures
        match length_at(s@) {
            Ok((n, len)) => r matches Ok((m, l)) && m == n && l == len && n + len <= s@.len(),
            Err(f) => r == Err::<(usize, usize), WireFault>(f),
        },
{
    proof {
        lemma_varint_from_bounds(s@, 0);
    }
    match get_varint(s) {
        None => Err(WireFault::InvalidVarint),
        Some((len, left)) => {
            if len > left as u64 {
                Err(WireFault::Underflow)
            } else {
                Ok((s.len() - left, len as usize))
            }
        },
    }
}

/// Skips a payload that nobody asks for: how many bytes it takes.
pub fn skip_payload(wire: u64, tag: u32, s: &[u8], depth: u32) -> (r: Result<usize, WireFault>)
    ensures
        match skipped(wire, tag, s@, depth) {
            Ok(n) => r matches Ok(m) && m == n && n <= s@.len(),
            Err(f) => r == Err::<usize, WireFault>(f),
        },
    decreases s@.len(), 1nat,
{
    proof {
        lemma_varint_from_bounds(s@, 0);
    }
    if depth == 0 {
        Err(WireFault::NestingLimit)
    } else if wire == 0 {
        match get_varint(s) {
            None => Err(WireFault::InvalidVarint),
            Some((_, left)) => Ok(s.len() - left),
        }
    } else if wire == 1 {
        if s.len() < 8 {
            Err(WireFault::Underflow)
        } else {
            Ok(8)
        }
    } else if wire == 2 {
        let total: usize = s.len();
        match get_length(s) {
            Err(f) => Err(f),
            Ok((n, len)) => {
                assert(n + len <= total);
                Ok(n + len)
            },
        }
    } else if wire == 3 {
        skip_group(tag, s, depth)
    } else if wire == 4 {
        Err(WireFault::UnexpectedEndGroup)
    } else {
        if s.len() < 4 {
            Err(WireFault::Underflow)
        } else {
            Ok(4)
        }
    }
}

/// Skips the rest of a group: how many bytes it takes.
fn skip_group(tag: u32, s: &[u8], depth: u32) -> (r: Result<usize, WireFault>)
    requires
        depth > 0,
    ensures
        match group_skipped(tag, s@, depth) {
            Ok(n) => r matches Ok(m) && m == n && n <= s@.len(),
            Err(f) => r == Err::<usize, WireFault>(f),
        },
    decreases s@.len(), 0nat,
{
    let total: usize = s.len();
    let mut at: usize = 0;
    assert(s@.skip(0) =~= s@);
    loop
        invariant
            depth > 0,
            total == s@.len(),
            at <= total,
            match group_skipped(tag, s@.skip(at as int), depth) {
                Ok(k) => group_skipped(tag, s@, depth) == Ok::<nat, WireFault>((at + k) as nat),
                Err(f) => group_skipped(tag, s@, depth) == Err::<nat, WireFault>(f),
            },
        decreases total - at,
    {
        let rest = slice_from(s, at);
        let (inner, wire, n) = match get_key(rest) {
            Ok(key) => key,
            Err(f) => {
                return Err(f);
            },
        };
        if wire == 4 {
            if inner != tag {
                return Err(WireFault::UnexpectedEndGroup);
            }
            return Ok(at + n);
        }
        let payload = slice_from(rest, n);
        match skip_payload(wire, inner, payload, depth - 1) {
            Err(f) => {
                return Err(f);
            },
            Ok(m) => {
                assert(rest@.skip(n + m) =~= s@.skip(at + n + m));
                at = at + n + m;
            },
        }
    }
}

/// The payload of one field. Payloads that no message of the schema uses
/// (fixed-width numbers and groups) are told apart from the others only.
pub enum WireValue {
    Varint(u64),
    Bytes(Vec<u8>),
    Other,
}

/// One field of a message.
pub struct Field {
    pub tag: u32,
    pub value: WireValue,
}

/// The model of [`WireValue`].
pub enum ValueModel {
    Varint(u64),
    Bytes(Seq<u8>),
    Other,
}

/// The model of [`Field`].
pub struct FieldModel {
    pub tag: u32,
    pub value: ValueModel,
}

impl View for Field {
    type V = FieldModel;

    open spec fn view(&self) -> FieldModel {
        FieldModel {
            tag: self.tag,
            value: match self.value {
                WireValue::Varint(v) => ValueModel::Varint(v),
                WireValue::Bytes(b) => ValueModel::Bytes(b@),
                WireValue::Other => ValueModel::Other,
            },
        }
    }
}

/// The models of a run of fields.
pub open spec fn field_models(fields: Seq<Field>) -> Seq<FieldModel> {
    fields.map_values(|f: Field| f@)
}

/// The bytes of one field. Only numbers and byte strings are ever written.
pub open spec fn field_bytes(f: FieldModel) -> Seq<u8> {
    match f.value {
        ValueModel::Varint(v) => varint((f.tag * 8) as nat) + varint(v as nat),
        ValueModel::Bytes(b) => varint((f.tag * 8 + 2) as nat) + varint(b.len()) + b,
        ValueModel::Other => Seq::empty(),
    }
}

/// The bytes of a run of fields.
pub open spec fn fields_bytes(fields: Seq<FieldModel>) -> Seq<u8>
    decreases fields.len(),
{
    if fields.len() == 0 {
        Seq::empty()
    } else {
        fields_bytes(fields.drop_last()) + field_bytes(fields.last())
    }
}

/// Whether the field can be written: its tag fits behind the wire type, its
/// length is a 64-bit number, and its payload is a number or a byte string.
pub open spec fn field_ok(f: FieldModel) -> bool {
    &&& 1 <= f.tag < 0x2000_0000
    &&& match f.value {
        ValueModel::Varint(_) => true,
        ValueModel::Bytes(b) => b.len() <= u64::MAX,
        ValueModel::Other => false,
    }
}

/// The payload of wire type `wire` at the start of `s`, and its length. Groups may have
/// `depth` levels.
pub open spec fn payload_at(tag: u32, wire: nat, s: Seq<u8>, depth: u32) -> Option<
    (ValueModel, nat),
> {
    if wire == 0 {
        match varint_from(s, 0) {
            Some((v, n)) => Some((ValueModel::Varint(v as u64), n)),
            None => None,
        }
    } else if wire == 1 {
        if s.len() < 8 {
            None
        } else {
            Some((ValueModel::Other, 8nat))
        }
    } else if wire == 2 {
        match varint_from(s, 0) {
            Some((len, n)) => if len > s.len() - n {
                None
            } else {
                Some((ValueModel::Bytes(s.subrange(n as int, (n + len) as int)), n + len))
            },
            None => None,
        }
    } else if wire == 3 {
        match skipped(3, tag, s, depth) {
            Ok(n) => Some((ValueModel::Other, n)),
            Err(_) => None,
        }
    } else if wire == 5 {
        if s.len() < 4 {
            None
        } else {
            Some((ValueModel::Other, 4nat))
        }
    } else {
        None
    }
}

/// The field at the start of `s`, and its length.
pub open spec fn field_at(s: Seq<u8>, depth: u32) -> Option<(FieldModel, nat)> {
    match varint_from(s, 0) {
        Some((key, n)) => {
            let tag = key / 8;
            if key > u32::MAX || tag == 0 || n > s.len() {
                None
            } else {
                match payload_at(tag as u32, key % 8, s.skip(n as int), depth) {
                    Some((value, m)) => Some((FieldModel { tag: tag as u32, value }, n + m)),
                    None => None,
                }
            }
        },
        None => None,
    }
}

/// The fields that `s` is made of; `None` where it is not a run of fields.
pub open spec fn fields_of(s: Seq<u8>, depth: u32) -> Option<Seq<FieldModel>>
    decreases s.len(),
{
    if s.len() == 0 {
        Some(Seq::empty())
    } else {
        match field_at(s, depth) {
            Some((f, n)) => if 0 < n <= s.len() {
                match fields_of(s.skip(n as int), depth) {
                    Some(rest) => Some(seq![f] + rest),
                    None => None,
                }
            } else {
                None
            },
            None => None,
        }
    }
}

/// Folds the fields of a message into `init`, one after the other; `None` as
/// soon as one step refuses its field.
pub open spec fn fold_fields<A>(
    init: A,
    fields: Seq<FieldModel>,
    step: spec_fn(A, FieldModel) -> Option<A>,
) -> Option<A>
    decreases fields.len(),
{
    if fields.len() == 0 {
        Some(init)
    } else {
        match fold_fields(init, fields.drop_last(), step) {
            Some(acc) => step(acc, fields.last()),
            None => None,
        }
    }
}

/// The field of a number, which is left out where the number is zero.
pub open spec fn number_field(tag: u32, v: u64) -> Seq<FieldModel> {
    if v == 0 {
        Seq::empty()
    } else {
        seq![FieldModel { tag, value: ValueModel::Varint(v) }]
    }
}

/// The field of a byte string, which is left out where the string is empty.
pub open spec fn bytes_field(tag: u32, b: Seq<u8>) -> Seq<FieldModel> {
    if b.len() == 0 {
        Seq::empty()
    } else {
        seq![FieldModel { tag, value: ValueModel::Bytes(b) }]
    }
}

/// The field of an embedded message or of one item of a repeated field.
pub open spec fn item_field(tag: u32, b: Seq<u8>) -> FieldModel {
    FieldModel { tag, value: ValueModel::Bytes(b) }
}

// ---------------------------------------------------------------------------
// Reading what was written
// ---------------------------------------------------------------------------

/// Reading a number gives back what was written and stops right behind it.
pub proof fn lemma_varint_round_trip(v: nat, pre: Seq<u8>, post: Seq<u8>)
    requires
        pre.len() < 10,
        pre.len() == 0 ==> v <= u64::MAX,
        pre.len() == 1 ==> v < 0x200_0000_0000_0000,
        pre.len() == 2 ==> v < 0x4_0000_0000_0000,
        pre.len() == 3 ==> v < 0x800_0000_0000,
        pre.len() == 4 ==> v < 0x10_0000_0000,
        pre.len() == 5 ==> v < 0x2000_0000,
        pre.len() == 6 ==> v < 0x40_0000,
        pre.len() == 7 ==> v < 0x8000,
        pre.len() == 8 ==> v < 0x100,
        pre.len() == 9 ==> v < 2,
    ensures
        varint_from(pre + varint(v) + post, pre.len()) == Some((v, varint(v).len())),
    decreases v,
{
    let s = pre + varint(v) + post;
    if v < 128 {
        assert(s[pre.len() as int] == v as u8);
    } else {
        let b = (128 + v % 128) as u8;
        assert(s[pre.len() as int] == b);
        lemma_varint_round_trip(v / 128, pre.push(b), post);
        assert(pre.push(b) + varint(v / 128) + post =~= s);
    }
}

/// A number takes at least one byte.
pub proof fn lemma_varint_len(v: nat)
    ensures
        varint(v).len() >= 1,
{
}

/// A 64-bit number takes at most ten bytes.
pub proof fn lemma_varint_len_max(v: nat)
    requires
        v <= u64::MAX,
    ensures
        varint(v).len() <= 10,
{
    reveal_with_fuel(varint, 11);
}

/// The field of a small tag and a 64-bit number takes at most twenty bytes.
pub proof fn lemma_number_field_len(tag: u32, v: u64)
    requires
        tag < 0x2000_0000,
    ensures
        fields_bytes(number_field(tag, v)).len() <= 20,
{
    lemma_varint_len_max((tag * 8) as nat);
    lemma_varint_len_max(v as nat);
    if v != 0 {
        lemma_fields_bytes_one(FieldModel { tag, value: ValueModel::Varint(v) });
    }
}

/// What a read of a number takes is at least one byte and no more than there is.
pub proof fn lemma_varint_from_bounds(s: Seq<u8>, at: nat)
    ensures
        varint_from(s, at) matches Some((v, n)) ==> 1 <= n && at + n <= s.len(),
    decreases 10 - at,
{
    if at < 10 && at < s.len() && s[at as int] >= 128 {
        lemma_varint_from_bounds(s, at + 1);
    }
}

/// Reading a field gives back what was written and stops right behind it.
pub proof fn lemma_field_round_trip(f: FieldModel, post: Seq<u8>, depth: u32)
    requires
        field_ok(f),
    ensures
        field_at(field_bytes(f) + post, depth) == Some((f, field_bytes(f).len())),
        field_bytes(f).len() > 0,
{
    let s = field_bytes(f) + post;
    let e = Seq::<u8>::empty();
    match f.value {
        ValueModel::Varint(v) => {
            let key = (f.tag * 8) as nat;
            let tail = varint(v as nat) + post;
            assert(s =~= e + varint(key) + tail);
            lemma_varint_round_trip(key, e, tail);
            lemma_varint_len(key);
            assert(s.skip(varint(key).len() as int) =~= tail);
            assert(tail =~= e + varint(v as nat) + post);
            lemma_varint_round_trip(v as nat, e, post);
            assert(key / 8 == f.tag && key % 8 == 0);
        },
        ValueModel::Bytes(b) => {
            let key = (f.tag * 8 + 2) as nat;
            let tail = varint(b.len()) + b + post;
            assert(s =~= e + varint(key) + tail);
            lemma_varint_round_trip(key, e, tail);
            lemma_varint_len(key);
            assert(s.skip(varint(key).len() as int) =~= tail);
            assert(tail =~= e + varint(b.len()) + (b + post));
            lemma_varint_round_trip(b.len(), e, b + post);
            assert(key / 8 == f.tag && key % 8 == 2);
            let n = varint(b.len()).len();
            assert(tail.subrange(n as int, (n + b.len()) as int) =~= b);
        },
        ValueModel::Other => {},
    }
}

/// The bytes of two runs of fields one after the other.
pub proof fn lemma_fields_bytes_concat(a: Seq<FieldModel>, b: Seq<FieldModel>)
    ensures
        fields_bytes(a + b) == fields_bytes(a) + fields_bytes(b),
    decreases b.len(),
{
    if b.len() == 0 {
        assert(a + b =~= a);
        assert(fields_bytes(a) + fields_bytes(b) =~= fields_bytes(a));
    } else {
        assert((a + b).drop_last() =~= a + b.drop_last());
        lemma_fields_bytes_concat(a, b.drop_last());
        assert(fields_bytes(a) + fields_bytes(b.drop_last()) + field_bytes(b.last()) =~= fields_bytes(
            a,
        ) + fields_bytes(b));
    }
}

/// The bytes of a run of a single field.
pub proof fn lemma_fields_bytes_one(f: FieldModel)
    ensures
        fields_bytes(seq![f]) == field_bytes(f),
{
    assert(seq![f].drop_last() =~= Seq::<FieldModel>::empty());
    reveal_with_fuel(fields_bytes, 2);
    assert(Seq::<u8>::empty() + field_bytes(f) =~= field_bytes(f));
}

/// Splitting what was written into fields gives back the fields.
pub proof fn lemma_fields_round_trip(fields: Seq<FieldModel>, depth: u32)
    requires
        forall|i: int| 0 <= i < fields.len() ==> field_ok(#[trigger] fields[i]),
    ensures
        fields_of(fields_bytes(fields), depth) == Some(fields),
    decreases fields.len(),
{
    if fields.len() > 0 {
        let f = fields[0];
        let rest = fields.drop_first();
        assert(fields =~= seq![f] + rest);
        lemma_fields_bytes_concat(seq![f], rest);
        lemma_fields_bytes_one(f);
        let post = fields_bytes(rest);
        lemma_field_round_trip(f, post, depth);
        lemma_fields_round_trip(rest, depth);
        let s = field_bytes(f) + post;
        assert(s.skip(field_bytes(f).len() as int) =~= post);
    }
}

/// Folding two runs of fields one after the other.
pub proof fn lemma_fold_concat<A>(
    init: A,
    a: Seq<FieldModel>,
    b: Seq<FieldModel>,
    step: spec_fn(A, FieldModel) -> Option<A>,
)
    ensures
        fold_fields(init, a + b, step) == match fold_fields(init, a, step) {
            Some(acc) => fold_fields(acc, b, step),
            None => None,
        },
    decreases b.len(),
{
    if b.len() == 0 {
        assert(a + b =~= a);
    } else {
        assert((a + b).drop_last() =~= a + b.drop_last());
        lemma_fold_concat(init, a, b.drop_last(), step);
    }
}

/// Folding a run of a single field.
pub proof fn lemma_fold_one<A>(
    init: A,
    f: FieldModel,
    step: spec_fn(A, FieldModel) -> Option<A>,
)
    ensures
        fold_fields(init, seq![f], step) == step(init, f),
{
    assert(seq![f].drop_last() =~= Seq::<FieldModel>::empty());
    reveal_with_fuel(fold_fields, 2);
}

// ---------------------------------------------------------------------------
// Writing
// ---------------------------------------------------------------------------

/// Appends a number field, unless the number is zero.
pub fn put_number(tag: u32, v: u64, out: &mut Vec<u8>)
    requires
        1 <= tag < 0x2000_0000,
    ensures
        final(out)@ == old(out)@ + fields_bytes(number_field(tag, v)),
{
    if v != 0 {
        put_varint(tag as u64 * 8, out);
        put_varint(v, out);
        proof {
            lemma_fields_bytes_one(FieldModel { tag, value: ValueModel::Varint(v) });
            assert(out@ =~= old(out)@ + fields_bytes(number_field(tag, v)));
        }
    } else {
        assert(out@ =~= old(out)@ + fields_bytes(number_field(tag, v)));
    }
}

/// Appends a byte string or an embedded message as a field, empty or not.
pub fn put_item(tag: u32, b: &[u8], out: &mut Vec<u8>)
    requires
        1 <= tag < 0x2000_0000,
    ensures
        final(out)@ == old(out)@ + fields_bytes(seq![item_field(tag, b@)]),
{
    put_varint(tag as u64 * 8 + 2, out);
    put_varint(b.len() as u64, out);
    let mut payload: Vec<u8> = to_vec(b);
    out.append(&mut payload);
    proof {
        lemma_fields_bytes_one(item_field(tag, b@));
        assert(out@ =~= old(out)@ + fields_bytes(seq![item_field(tag, b@)]));
    }
}

/// Appends a byte string as a field, unless it is empty.
pub fn put_bytes(tag: u32, b: &[u8], out: &mut Vec<u8>)
    requires
        1 <= tag < 0x2000_0000,
    ensures
        final(out)@ == old(out)@ + fields_bytes(bytes_field(tag, b@)),
{
    if b.len() != 0 {
        put_item(tag, b, out);
    } else {
        assert(out@ =~= old(out)@ + fields_bytes(bytes_field(tag, b@)));
    }
}

// ---------------------------------------------------------------------------
// Reading
// ---------------------------------------------------------------------------

/// Reads the field at the start of `s`: the field and how many bytes it took.
fn get_field(s: &[u8], depth: u32) -> (r: Option<(Field, usize)>)
    ensures
        match field_at(s@, depth) {
            Some((f, n)) => r matches Some((x, m)) && x@ == f && m == n && 1 <= n <= s@.len(),
            None => r is None,
        },
{
    let (key, left) = match get_varint(s) {
        Some(found) => found,
        None => {
            return None;
        },
    };
    proof {
        lemma_varint_from_bounds(s@, 0);
    }
    if key > 0xffff_ffff || key / 8 == 0 {
        return None;
    }
    let at: usize = s.len() - left;
    let rest = slice_from(s, at);
    let tag: u32 = (key / 8) as u32;
    let wire: u64 = key % 8;
    proof {
        lemma_varint_from_bounds(rest@, 0);
    }
    if wire == 0 {
        match get_varint(rest) {
            Some((v, left)) => Some(
                (Field { tag, value: WireValue::Varint(v) }, at + (rest.len() - left)),
            ),
            None => None,
        }
    } else if wire == 1 {
        if rest.len() < 8 {
            None
        } else {
            Some((Field { tag, value: WireValue::Other }, at + 8))
        }
    } else if wire == 2 {
        match get_varint(rest) {
            Some((len, left)) => {
                if len > left as u64 {
                    None
                } else {
                    let from: usize = rest.len() - left;
                    let to: usize = from + len as usize;
                    let payload: Vec<u8> = to_vec(vstd::slice::slice_subrange(rest, from, to));
                    Some((Field { tag, value: WireValue::Bytes(payload) }, at + to))
                }
            },
            None => None,
        }
    } else if wire == 3 {
        match skip_payload(3, tag, rest, depth) {
            Ok(n) => Some((Field { tag, value: WireValue::Other }, at + n)),
            Err(_) => None,
        }
    } else if wire == 5 {
        if rest.len() < 4 {
            None
        } else {
            Some((Field { tag, value: WireValue::Other }, at + 4))
        }
    } else {
        None
    }
}

/// The part of `s` from position `at` on.
pub fn slice_from(s: &[u8], at: usize) -> (r: &[u8])
    requires
        at <= s@.len(),
    ensures
        r@ == s@.skip(at as int),
{
    let r = vstd::slice::slice_subrange(s, at, s.len());
    assert(r@ =~= s@.skip(at as int));
    r
}

/// Splits an encoded message into its fields; `None` where the bytes are not a
/// run of fields.
pub fn get_fields(bytes: &[u8], depth: u32) -> (r: Option<Vec<Field>>)
    ensures
        match fields_of(bytes@, depth) {
            Some(fields) => r matches Some(v) && field_models(v@) == fields,
            None => r is None,
        },
{
    let mut out: Vec<Field> = Vec::new();
    let mut at: usize = 0;
    assert(bytes@.skip(0) =~= bytes@);
    assert(field_models(out@) =~= Seq::<FieldModel>::empty());
    proof {
        if let Some(fields) = fields_of(bytes@, depth) {
            assert(field_models(out@) + fields =~= fields);
        }
    }
    while at < bytes.len()
        invariant
            at <= bytes@.len(),
            match fields_of(bytes@.skip(at as int), depth) {
                Some(rest) => fields_of(bytes@, depth) == Some(field_models(out@) + rest),
                None => fields_of(bytes@, depth) is None,
            },
        decreases bytes@.len() - at,
    {
        let rest = slice_from(bytes, at);
        match get_field(rest, depth) {
            Some((field, n)) => {
                let ghost before = out@;
                let ghost tail = rest@.skip(n as int);
                out.push(field);
                at = at + n;
                proof {
                    assert(tail =~= bytes@.skip(at as int));
                    assert(field_models(out@) =~= field_models(before) + seq![field@]);
                    if let Some(more) = fields_of(tail, depth) {
                        assert(field_models(before) + (seq![field@] + more) =~= field_models(out@)
                            + more);
                    }
                }
            },
            None => {
                return None;
            },
        }
    }
    proof {
        assert(bytes@.skip(at as int) =~= Seq::<u8>::empty());
        assert(field_models(out@) + Seq::<FieldModel>::empty() =~= field_models(out@));
    }
    Some(out)
}

/// A field that is passed over takes the bytes that its wire type says: a number those of the
/// number, a text its length and that many bytes, the fixed types eight and four, and a group
/// all up to the end mark with its tag.
pub proof fn law_passed_over_field_takes_its_bytes(
    tag: u32,
    v: u64,
    b: Seq<u8>,
    post: Seq<u8>,
    depth: u32,
)
    requires
        depth > 0,
        b.len() <= u64::MAX,
        0 < tag < 0x2000_0000,
    ensures
        skipped(0, tag, varint(v as nat) + post, depth) == Ok::<nat, WireFault>(
            varint(v as nat).len(),
        ),
        skipped(1, tag, post, depth) == if post.len() >= 8 {
            Ok::<nat, WireFault>(8nat)
        } else {
            Err(WireFault::Underflow)
        },
        skipped(2, tag, varint(b.len()) + b + post, depth) == Ok::<nat, WireFault>(
            varint(b.len()).len() + b.len(),
        ),
        skipped(3, tag, varint((tag * 8 + 4) as nat) + post, depth) == Ok::<nat, WireFault>(
            varint((tag * 8 + 4) as nat).len(),
        ),
        skipped(4, tag, post, depth) is Err,
        skipped(5, tag, post, depth) == if post.len() >= 4 {
            Ok::<nat, WireFault>(4nat)
        } else {
            Err(WireFault::Underflow)
        },
        skipped(0, tag, varint(v as nat) + post, 0) == Err::<nat, WireFault>(
            WireFault::NestingLimit,
        ),
{
    let none = Seq::<u8>::empty();
    let end = (tag * 8 + 4) as nat;
    assert(none + varint(v as nat) + post =~= varint(v as nat) + post);
    lemma_varint_round_trip(v as nat, none, post);
    assert(none + varint(b.len()) + (b + post) =~= varint(b.len()) + b + post);
    lemma_varint_round_trip(b.len(), none, b + post);
    assert(none + varint(end) + post =~= varint(end) + post);
    lemma_varint_round_trip(end, none, post);
    assert(end % 8 == 4 && end / 8 == tag);
}

} // verus!
