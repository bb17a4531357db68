//! Messages: the message type indicator, the bitmap and the data elements,
//! read from the wire and written back to it.

use vstd::prelude::*;
use bytes::{Bytes, BytesMut};
use crate::bitmap::{
    bitmap_wire, chained, chunks_read, lemma_read_bitmap, lemma_set_indices, read_bitmap, sealed,
    set_indices, with_bit_cleared, with_bit_set, BitMap,
};
use crate::bits::MAX_BITS;
use crate::buf::{bytes_mut_seq, bytes_seq, take_u8};
use crate::codec::Codec;
use crate::error::{
    truncated_bitmap_text, truncated_field, truncated_field_text, truncated_mti,
    truncated_mti_text, RS8583Error,
};
use crate::field::Field;
use crate::spec::MessageSpec;

verus! {

/// The message type indicator: four bytes, each by its place the version,
/// the class, the function and the origin of the message.
pub struct MTI(pub [u8; 4]);

impl Default for MTI {
    fn default() -> (m: Self)
        ensures
            m.0@ == seq![0x30u8, 0x30u8, 0x30u8, 0x30u8],
    {
        MTI([0x30, 0x30, 0x30, 0x30])
    }
}

impl MTI {
    /// Reads the four bytes of the indicator at the cursor. Where fewer are
    /// left, the cursor stays as it was.
    pub fn from_cursor(cursor: &mut Bytes) -> (r: Result<MTI, RS8583Error>)
        ensures
            bytes_seq(*old(cursor)).len() >= 4 ==> r is Ok && r->Ok_0.0@ == bytes_seq(
                *old(cursor),
            ).take(4) && bytes_seq(*final(cursor)) == bytes_seq(*old(cursor)).skip(4),
            bytes_seq(*old(cursor)).len() < 4 ==> r is Err && r->Err_0.message()
                == truncated_mti_text() && bytes_seq(*final(cursor)) == bytes_seq(*old(cursor)),
    {
        if cursor.len() < 4 {
            return Err(truncated_mti());
        }
        let ghost data = bytes_seq(*cursor);
        let version = take_u8(cursor);
        let class = take_u8(cursor);
        let function = take_u8(cursor);
        let origin = take_u8(cursor);
        let mti = MTI([version, class, function, origin]);
        assert(mti.0@ == data.take(4));
        assert(bytes_seq(*cursor) == data.skip(4));
        Ok(mti)
    }

    /// The byte that tells the version of the standard.
    pub fn version_byte(&self) -> (b: u8)
        ensures
            b == self.0[0],
    {
        self.0[0]
    }

    /// The byte that tells the class of the message.
    pub fn class_byte(&self) -> (b: u8)
        ensures
            b == self.0[1],
    {
        self.0[1]
    }

    /// The byte that tells the function of the message.
    pub fn function_byte(&self) -> (b: u8)
        ensures
            b == self.0[2],
    {
        self.0[2]
    }

    /// The byte that tells where the message comes from.
    pub fn origin_byte(&self) -> (b: u8)
        ensures
            b == self.0[3],
    {
        self.0[3]
    }

    /// Whether the version is that of 1987: the digit `0`.
    pub fn is_version_1987(&self) -> (b: bool)
        ensures
            b == (self.0[0] == 0x30),
    {
        self.version_byte() == 0x30
    }

    /// Whether the version is that of 1993: the digit `1`.
    pub fn is_version_1993(&self) -> (b: bool)
        ensures
            b == (self.0[0] == 0x31),
    {
        self.version_byte() == 0x31
    }

    /// Whether the version is that of 2003: the digit `2`.
    pub fn is_version_2003(&self) -> (b: bool)
        ensures
            b == (self.0[0] == 0x32),
    {
        self.version_byte() == 0x32
    }

    /// Whether the version is a national one: the digit `8`.
    pub fn is_version_national(&self) -> (b: bool)
        ensures
            b == (self.0[0] == 0x38),
    {
        self.version_byte() == 0x38
    }

    /// Whether the version is a private one: the digit `9`.
    pub fn is_version_private(&self) -> (b: bool)
        ensures
            b == (self.0[0] == 0x39),
    {
        self.version_byte() == 0x39
    }

    /// Whether the class is authorization: the digit `1`.
    pub fn is_authorization(&self) -> (b: bool)
        ensures
            b == (self.0[1] == 0x31),
    {
        self.class_byte() == 0x31
    }

    /// Whether the class is financial: the digit `2`.
    pub fn is_financial(&self) -> (b: bool)
        ensures
            b == (self.0[1] == 0x32),
    {
        self.class_byte() == 0x32
    }

    /// Whether the class is file action: the digit `3`.
    pub fn is_file_action(&self) -> (b: bool)
        ensures
            b == (self.0[1] == 0x33),
    {
        self.class_byte() == 0x33
    }

    /// Whether the class is reversal: the digit `4`.
    pub fn is_reversal(&self) -> (b: bool)
        ensures
            b == (self.0[1] == 0x34),
    {
        self.class_byte() == 0x34
    }

    /// Whether the class is reconciliation: the digit `5`.
    pub fn is_reconciliation(&self) -> (b: bool)
        ensures
            b == (self.0[1] == 0x35),
    {
        self.class_byte() == 0x35
    }

    /// Whether the class is administrative: the digit `6`.
    pub fn is_administrative(&self) -> (b: bool)
        ensures
            b == (self.0[1] == 0x36),
    {
        self.class_byte() == 0x36
    }

    /// Whether the class is fee collection: the digit `7`.
    pub fn is_fee_collection(&self) -> (b: bool)
        ensures
            b == (self.0[1] == 0x37),
    {
        self.class_byte() == 0x37
    }

    /// Whether the class is network management: the digit `8`.
    pub fn is_management(&self) -> (b: bool)
        ensures
            b == (self.0[1] == 0x38),
    {
        self.class_byte() == 0x38
    }

    /// Whether the class is the reserved one: the digit `9`.
    pub fn is_reserved_class(&self) -> (b: bool)
        ensures
            b == (self.0[1] == 0x39),
    {
        self.class_byte() == 0x39
    }

    /// Whether the function is a request: the digit `0`.
    pub fn is_request(&self) -> (b: bool)
        ensures
            b == (self.0[2] == 0x30),
    {
        self.function_byte() == 0x30
    }

    /// Whether the function is the response to a request: the digit `1`.
    pub fn is_request_response(&self) -> (b: bool)
        ensures
            b == (self.0[2] == 0x31),
    {
        self.function_byte() == 0x31
    }

    /// Whether the function is an advice: the digit `2`.
    pub fn is_advice(&self) -> (b: bool)
        ensures
            b == (self.0[2] == 0x32),
    {
        self.function_byte() == 0x32
    }

    /// Whether the function is the response to an advice: the digit `3`.
    pub fn is_advice_response(&self) -> (b: bool)
        ensures
            b == (self.0[2] == 0x33),
    {
        self.function_byte() == 0x33
    }

    /// Whether the function is a notification: the digit `4`.
    pub fn is_notification(&self) -> (b: bool)
        ensures
            b == (self.0[2] == 0x34),
    {
        self.function_byte() == 0x34
    }

    /// Whether the function acknowledges a notification: the digit `5`.
    pub fn is_notification_ack(&self) -> (b: bool)
        ensures
            b == (self.0[2] == 0x35),
    {
        self.function_byte() == 0x35
    }

    /// Whether the function is an instruction: the digit `6`.
    pub fn is_instruction(&self) -> (b: bool)
        ensures
            b == (self.0[2] == 0x36),
    {
        self.function_byte() == 0x36
    }

    /// Whether the function acknowledges an instruction: the digit `7`.
    pub fn is_instruction_ack(&self) -> (b: bool)
        ensures
            b == (self.0[2] == 0x37),
    {
        self.function_byte() == 0x37
    }

    /// Whether the function is a positive acknowledgement: the digit `8`.
    pub fn is_positive_ack(&self) -> (b: bool)
        ensures
            b == (self.0[2] == 0x38),
    {
        self.function_byte() == 0x38
    }

    /// Whether the function is a negative acknowledgement: the digit `9`.
    pub fn is_negative_ack(&self) -> (b: bool)
        ensures
            b == (self.0[2] == 0x39),
    {
        self.function_byte() == 0x39
    }

    /// Whether the message comes from the acquirer: the digits `0` and `1`.
    pub fn is_from_acquirer(&self) -> (b: bool)
        ensures
            b == (self.0[3] == 0x30 || self.0[3] == 0x31),
    {
        match self.origin_byte() {
            0x30 | 0x31 => true,
            _ => false,
        }
    }

    /// Whether the message comes from the issuer: the digits `2` and `3`.
    pub fn is_from_issuer(&self) -> (b: bool)
        ensures
            b == (self.0[3] == 0x32 || self.0[3] == 0x33),
    {
        match self.origin_byte() {
            0x32 | 0x33 => true,
            _ => false,
        }
    }

    /// Whether the message comes from another party: the digits `4` and `5`.
    pub fn is_from_other(&self) -> (b: bool)
        ensures
            b == (self.0[3] == 0x34 || self.0[3] == 0x35),
    {
        match self.origin_byte() {
            0x34 | 0x35 => true,
            _ => false,
        }
    }

    /// Whether the message repeats an earlier one: the digits `1`, `3`
    /// and `5`.
    pub fn is_repeat(&self) -> (b: bool)
        ensures
            b == (self.0[3] == 0x31 || self.0[3] == 0x33 || self.0[3] == 0x35),
    {
        match self.origin_byte() {
            0x31 | 0x33 | 0x35 => true,
            _ => false,
        }
    }
}

/// What a message holds: the four bytes of its indicator, the bits of its
/// bitmap, and the payloads of the data elements that are present.
#[verifier::ext_equal]
pub struct MessageView {
    pub mti: Seq<u8>,
    pub bits: Seq<bool>,
    pub fields: Map<nat, Seq<u8>>,
}

impl MessageView {
    /// The payload of the data element at `idx`, if it is present.
    pub open spec fn field(self, idx: nat) -> Option<Seq<u8>> {
        if self.fields.dom().contains(idx) {
            Some(self.fields[idx])
        } else {
            None
        }
    }

    /// Whether bit `idx` of the bitmap is set.
    pub open spec fn test(self, idx: nat) -> bool {
        idx < self.bits.len() && self.bits[idx as int]
    }

    /// The message after `payload` is stored at `idx`.
    pub open spec fn with_field(self, idx: nat, payload: Seq<u8>) -> MessageView {
        MessageView {
            mti: self.mti,
            bits: with_bit_set(self.bits, idx),
            fields: self.fields.insert(idx, payload),
        }
    }

    /// The message after the data element at `idx` is taken out.
    pub open spec fn without_field(self, idx: nat) -> MessageView {
        MessageView {
            mti: self.mti,
            bits: with_bit_cleared(self.bits, idx),
            fields: self.fields.remove(idx),
        }
    }

    /// Whether the message can be written under a schema and a codec and read
    /// back as it is: it has four bytes of indicator and a sealed bitmap, the
    /// data elements present are those that the bitmap marks and the schema
    /// describes, and each can be held by its schema.
    pub open spec fn writable(self, spec: MessageSpec, codec: Codec) -> bool {
        &&& self.mti.len() == 4
        &&& sealed(self.bits)
        &&& forall|idx: nat| #[trigger]
            self.fields.dom().contains(idx) <==> (self.test(idx) && idx % 64 != 0 && spec.slot(
                idx,
            ) is Some)
        &&& forall|idx: nat| #[trigger]
            self.fields.dom().contains(idx) ==> spec.slot(idx)->Some_0.holds(
                codec,
                self.fields[idx],
            )
    }

    /// Every data element that is present has its bit set.
    pub open spec fn consistent(self) -> bool {
        forall|idx: nat| self.fields.dom().contains(idx) ==> #[trigger] self.test(idx)
    }
}

/// The payloads that a table of fields holds, by their place.
pub open spec fn table_fields(table: Seq<Option<Field>>) -> Map<nat, Seq<u8>> {
    Map::new(
        |idx: nat| idx < table.len() && table[idx as int] is Some,
        |idx: nat| table[idx as int]->Some_0@,
    )
}

/// One step of reading the fields: the data element at `idx` is read at the
/// head of `state.1` as its schema says and stored in `state.0`. An element
/// without a schema is passed over, and nothing is read for it.
pub open spec fn parse_step(
    spec: MessageSpec,
    codec: Codec,
    idx: nat,
    state: (Map<nat, Seq<u8>>, Seq<u8>),
) -> Result<(Map<nat, Seq<u8>>, Seq<u8>), Seq<char>> {
    match spec.slot(idx) {
        None => Ok(state),
        Some(fs) => {
            let (outcome, rest) = fs.read_length(codec, state.1);
            match outcome {
                Err(text) => Err(text),
                Ok(size) => if rest.len() < size {
                    Err(truncated_field_text())
                } else {
                    Ok((state.0.insert(idx, rest.take(size as int)), rest.skip(size as int)))
                },
            }
        },
    }
}

/// Reading the data elements `idxs`, in their order, from `data`: the
/// payloads found and what is left of `data`, or the text of the first error.
pub open spec fn parse_fields(spec: MessageSpec, codec: Codec, idxs: Seq<nat>, data: Seq<u8>)
    -> Result<(Map<nat, Seq<u8>>, Seq<u8>), Seq<char>>
    decreases idxs.len(),
{
    if idxs.len() == 0 {
        Ok((Map::empty(), data))
    } else {
        match parse_fields(spec, codec, idxs.drop_last(), data) {
            Ok(state) => parse_step(spec, codec, idxs.last(), state),
            Err(text) => Err(text),
        }
    }
}

/// Reading a message from `data`: the indicator, the bitmap, then the data
/// elements that the bitmap marks, ascending. The result is the message and
/// the bytes left behind it, or the text of the first error.
pub open spec fn parse_message(spec: MessageSpec, codec: Codec, data: Seq<u8>) -> Result<
    (MessageView, Seq<u8>),
    Seq<char>,
> {
    if data.len() < 4 {
        Err(truncated_mti_text())
    } else {
        match read_bitmap(data.skip(4)) {
            None => Err(truncated_bitmap_text()),
            Some(bits) => match parse_fields(
                spec,
                codec,
                set_indices(bits),
                data.skip(4 + bits.len() as int / 8),
            ) {
                Err(text) => Err(text),
                Ok((fields, rest)) => Ok((MessageView { mti: data.take(4), bits, fields }, rest)),
            },
        }
    }
}

/// One step of writing the fields: the data element at `idx` is written
/// behind `out` as its schema says. An element that is absent, or without a
/// schema, is passed over.
pub open spec fn wire_step(
    spec: MessageSpec,
    codec: Codec,
    idx: nat,
    fields: Map<nat, Seq<u8>>,
    out: Seq<u8>,
) -> Result<Seq<u8>, Seq<char>> {
    if fields.dom().contains(idx) {
        match spec.slot(idx) {
            None => Ok(out),
            Some(fs) => match fs.field_wire(codec, fields[idx]) {
                Ok(wire) => Ok(out + wire),
                Err(text) => Err(text),
            },
        }
    } else {
        Ok(out)
    }
}

/// The data elements `idxs` on the wire, in their order; or the text of the
/// first error.
pub open spec fn wire_fields(
    spec: MessageSpec,
    codec: Codec,
    idxs: Seq<nat>,
    fields: Map<nat, Seq<u8>>,
) -> Result<Seq<u8>, Seq<char>>
    decreases idxs.len(),
{
    if idxs.len() == 0 {
        Ok(Seq::empty())
    } else {
        match wire_fields(spec, codec, idxs.drop_last(), fields) {
            Ok(out) => wire_step(spec, codec, idxs.last(), fields, out),
            Err(text) => Err(text),
        }
    }
}

/// A message on the wire: the indicator, the bitmap, then the data elements
/// that the bitmap marks, ascending; or the text of the first error.
pub open spec fn wire_message(view: MessageView, spec: MessageSpec, codec: Codec) -> Result<
    Seq<u8>,
    Seq<char>,
> {
    match wire_fields(spec, codec, set_indices(view.bits), view.fields) {
        Ok(body) => Ok(view.mti + bitmap_wire(view.bits) + body),
        Err(text) => Err(text),
    }
}

/// An error in reading some of the data elements is the error of reading
/// them all.
pub proof fn lemma_parse_error_stays(
    spec: MessageSpec,
    codec: Codec,
    idxs: Seq<nat>,
    data: Seq<u8>,
    n: int,
)
    requires
        0 <= n <= idxs.len(),
        parse_fields(spec, codec, idxs.take(n), data) is Err,
    ensures
        parse_fields(spec, codec, idxs, data) == parse_fields(spec, codec, idxs.take(n), data),
    decreases idxs.len() - n,
{
    if n < idxs.len() {
        assert(idxs.take(n + 1).drop_last() == idxs.take(n));
        lemma_parse_error_stays(spec, codec, idxs, data, n + 1);
    } else {
        assert(idxs.take(n) == idxs);
    }
}

/// An error in writing some of the data elements is the error of writing
/// them all.
pub proof fn lemma_wire_error_stays(
    spec: MessageSpec,
    codec: Codec,
    idxs: Seq<nat>,
    fields: Map<nat, Seq<u8>>,
    n: int,
)
    requires
        0 <= n <= idxs.len(),
        wire_fields(spec, codec, idxs.take(n), fields) is Err,
    ensures
        wire_fields(spec, codec, idxs, fields) == wire_fields(spec, codec, idxs.take(n), fields),
    decreases idxs.len() - n,
{
    if n < idxs.len() {
        assert(idxs.take(n + 1).drop_last() == idxs.take(n));
        lemma_wire_error_stays(spec, codec, idxs, fields, n + 1);
    } else {
        assert(idxs.take(n) == idxs);
    }
}

/// After a payload is stored at `idx`, it is the data element at `idx` and
/// bit `idx` is set, and so is the first bit of every chunk before that of
/// `idx`; the other data elements are as they were.
pub proof fn lemma_with_field(view: MessageView, idx: nat, payload: Seq<u8>)
    ensures
        view.with_field(idx, payload).field(idx) == Some(payload),
        view.with_field(idx, payload).test(idx),
        forall|c: nat|
            c % 64 == 0 && c + 64 <= idx ==> #[trigger] view.with_field(idx, payload).test(c),
        forall|other: nat|
            other != idx ==> #[trigger] view.with_field(idx, payload).field(other) == view.field(
                other,
            ),
        view.mti == view.with_field(idx, payload).mti,
{
    assert((idx / 64 + 1) * 64 == 64 * (idx / 64) + 64) by (nonlinear_arith);
}

/// After the data element at `idx` is taken out, it is absent and bit `idx`
/// is clear; the other data elements and the other bits are as they were.
pub proof fn lemma_without_field(view: MessageView, idx: nat)
    ensures
        view.without_field(idx).field(idx) is None,
        !view.without_field(idx).test(idx),
        forall|other: nat|
            other != idx ==> #[trigger] view.without_field(idx).field(other) == view.field(other),
        forall|other: nat|
            other != idx ==> #[trigger] view.without_field(idx).test(other) == view.test(other),
        view.without_field(idx).bits.len() == view.bits.len(),
        view.mti == view.without_field(idx).mti,
{
}

/// Storing a data element keeps every data element that is present under a
/// set bit.
pub proof fn lemma_with_field_consistent(view: MessageView, idx: nat, payload: Seq<u8>)
    requires
        view.consistent(),
    ensures
        view.with_field(idx, payload).consistent(),
{
    let after = view.with_field(idx, payload);
    lemma_with_field(view, idx, payload);
    assert forall|i: nat| after.fields.dom().contains(i) implies #[trigger] after.test(i) by {
        if i != idx {
            assert(view.test(i));
        }
    }
}

/// Taking a data element out keeps every data element that is present under
/// a set bit.
pub proof fn lemma_without_field_consistent(view: MessageView, idx: nat)
    requires
        view.consistent(),
    ensures
        view.without_field(idx).consistent(),
{
    let after = view.without_field(idx);
    assert forall|i: nat| after.fields.dom().contains(i) implies #[trigger] after.test(i) by {
        assert(view.test(i));
    }
}

/// Reading stores data elements at places among `idxs` alone.
pub proof fn lemma_parse_fields_places(
    spec: MessageSpec,
    codec: Codec,
    idxs: Seq<nat>,
    data: Seq<u8>,
)
    requires
        parse_fields(spec, codec, idxs, data) is Ok,
    ensures
        forall|i: nat| #[trigger]
            parse_fields(spec, codec, idxs, data)->Ok_0.0.dom().contains(i) ==> idxs.contains(i),
    decreases idxs.len(),
{
    if idxs.len() > 0 {
        let front = idxs.drop_last();
        lemma_parse_fields_places(spec, codec, front, data);
        let before = parse_fields(spec, codec, front, data)->Ok_0.0;
        assert forall|i: nat| #[trigger]
            parse_fields(spec, codec, idxs, data)->Ok_0.0.dom().contains(i) implies idxs.contains(
            i,
        ) by {
            if before.dom().contains(i) {
                let k = choose|k: int| 0 <= k < front.len() && front[k] == i;
                assert(idxs[k] == i);
            } else {
                assert(idxs[idxs.len() - 1] == i);
            }
        }
    }
}

/// In a message read from the wire, every data element that is present
/// has its bit set, and the continuation chain of the bitmap holds.
pub proof fn lemma_parse_message_consistent(spec: MessageSpec, codec: Codec, data: Seq<u8>)
    requires
        parse_message(spec, codec, data) is Ok,
    ensures
        parse_message(spec, codec, data)->Ok_0.0.consistent(),
        chained(parse_message(spec, codec, data)->Ok_0.0.bits),
        parse_message(spec, codec, data)->Ok_0.0.bits.len() >= 64,
        parse_message(spec, codec, data)->Ok_0.0.bits.len() % 64 == 0,
{
    let view = parse_message(spec, codec, data)->Ok_0.0;
    let bits = read_bitmap(data.skip(4))->Some_0;
    lemma_read_bitmap(data.skip(4));
    lemma_set_indices(bits);
    lemma_parse_fields_places(
        spec,
        codec,
        set_indices(bits),
        data.skip(4 + bits.len() as int / 8),
    );
    assert forall|i: nat| view.fields.dom().contains(i) implies #[trigger] view.test(i) by {
        let k = choose|k: int| 0 <= k < set_indices(bits).len() && set_indices(bits)[k] == i;
        assert(set_indices(bits)[k] == i);
    }
}

/// A message of a given schema.
pub struct Message<'spec> {
    mti: MTI,
    bitmap: BitMap,
    spec: &'spec MessageSpec,
    fields: Vec<Option<Field>>,
}

impl<'spec> View for Message<'spec> {
    type V = MessageView;

    closed spec fn view(&self) -> MessageView {
        MessageView { mti: self.mti.0@, bits: self.bitmap@, fields: table_fields(self.fields@) }
    }
}

impl<'spec> Message<'spec> {
    /// The schema of the message.
    pub closed spec fn schema(&self) -> MessageSpec {
        *self.spec
    }

    /// A message with the indicator `0000`, no bit set and no data element.
    pub fn new(spec: &'spec MessageSpec) -> (m: Self)
        ensures
            m.schema() == *spec,
            m@ == (MessageView {
                mti: seq![0x30u8, 0x30u8, 0x30u8, 0x30u8],
                bits: Seq::new(64, |i: int| false),
                fields: Map::empty(),
            }),
            m@.consistent(),
    {
        let m = Message { mti: MTI::default(), bitmap: BitMap::new(), spec, fields: Vec::new() };
        assert(m@.fields =~= Map::empty());
        m
    }

    /// Reads a message from `data`. Bytes left behind its last data element
    /// are not looked at. The chunks of the bitmap, which starts behind the
    /// four bytes of the indicator, must not be more than a bit vector holds,
    /// which is so of every input of up to `MAX_BITS / 8` bytes.
    pub fn from_bytes(spec: &'spec MessageSpec, codec: &Codec, data: Bytes) -> (r: Result<
        Self,
        RS8583Error,
    >)
        requires
            bytes_seq(data).len() >= 4 ==> 64 * chunks_read(bytes_seq(data).skip(4)) <= MAX_BITS,
        ensures
            match parse_message(*spec, *codec, bytes_seq(data)) {
                Ok((view, rest)) => r is Ok && r->Ok_0@ == view && r->Ok_0.schema() == *spec,
                Err(text) => r is Err && r->Err_0.message() == text,
            },
            r is Ok ==> r->Ok_0@.consistent(),
    {
        let ghost wire = bytes_seq(data);
        proof {
            if parse_message(*spec, *codec, wire) is Ok {
                lemma_parse_message_consistent(*spec, *codec, wire);
            }
        }
        let mut data = data;
        let mti = match MTI::from_cursor(&mut data) {
            Ok(mti) => mti,
            Err(e) => {
                return Err(e);
            },
        };
        let bitmap = match BitMap::from_cursor(&mut data) {
            Ok(bitmap) => bitmap,
            Err(e) => {
                return Err(e);
            },
        };
        proof {
            lemma_read_bitmap(wire.skip(4));
            assert(bytes_seq(data) == wire.skip(4 + bitmap@.len() as int / 8));
        }
        let fields = match Self::parse_fields(spec, codec, &bitmap, &mut data) {
            Ok(fields) => fields,
            Err(e) => {
                return Err(e);
            },
        };
        Ok(Message { mti, bitmap, spec, fields })
    }

    fn parse_fields(
        spec: &'spec MessageSpec,
        codec: &Codec,
        bitmap: &BitMap,
        cursor: &mut Bytes,
    ) -> (r: Result<Vec<Option<Field>>, RS8583Error>)
        ensures
            match parse_fields(*spec, *codec, set_indices(bitmap@), bytes_seq(*old(cursor))) {
                Ok((fields, rest)) => r is Ok && table_fields(r->Ok_0@) == fields && bytes_seq(
                    *final(cursor),
                ) == rest,
                Err(text) => r is Err && r->Err_0.message() == text,
            },
    {
        let ghost data = bytes_seq(*cursor);
        let ghost all = set_indices(bitmap@);
        let size = if bitmap.len() > 128 {
            bitmap.len()
        } else {
            128
        };
        let mut fields: Vec<Option<Field>> = Vec::new();
        while fields.len() < size
            invariant
                fields@.len() <= size,
                forall|i: int| 0 <= i < fields@.len() ==> #[trigger] fields@[i] is None,
            decreases size - fields.len(),
        {
            fields.push(None);
        }
        assert(table_fields(fields@) =~= Map::empty());
        let idxs = bitmap.iter_set();
        proof {
            lemma_set_indices(bitmap@);
        }
        let mut j: usize = 0;
        while j < idxs.len()
            invariant
                j <= idxs.len(),
                data == bytes_seq(*old(cursor)),
                all == set_indices(bitmap@),
                idxs@.len() == all.len(),
                forall|k: int| 0 <= k < idxs@.len() ==> idxs@[k] as nat == all[k],
                forall|k: int| 0 <= k < all.len() ==> #[trigger] all[k] < bitmap@.len(),
                fields@.len() == size,
                size >= bitmap@.len(),
                parse_fields(*spec, *codec, all.take(j as int), data) == Ok::<
                    (Map<nat, Seq<u8>>, Seq<u8>),
                    Seq<char>,
                >((table_fields(fields@), bytes_seq(*cursor))),
            decreases idxs.len() - j,
        {
            let idx = idxs[j];
            let ghost before = (table_fields(fields@), bytes_seq(*cursor));
            proof {
                assert(all.take(j + 1).drop_last() == all.take(j as int));
                assert(all.take(j + 1).last() == idx as nat);
                assert(all[j as int] < bitmap@.len());
            }
            match spec.get(idx) {
                None => {},
                Some(field_spec) => {
                    let to_read = match field_spec.to_read(codec, cursor) {
                        Ok(to_read) => to_read,
                        Err(e) => {
                            proof {
                                lemma_parse_error_stays(*spec, *codec, all, data, j + 1);
                            }
                            return Err(e);
                        },
                    };
                    if cursor.len() < to_read {
                        proof {
                            lemma_parse_error_stays(*spec, *codec, all, data, j + 1);
                        }
                        return Err(truncated_field());
                    }
                    let payload = cursor.split_to(to_read);
                    fields.set(idx, Some(Field::from_bytes(payload)));
                    assert(table_fields(fields@) =~= before.0.insert(
                        idx as nat,
                        bytes_seq(payload),
                    ));
                },
            }
            j += 1;
        }
        assert(all.take(j as int) == all);
        Ok(fields)
    }

    /// The message type indicator.
    pub fn mti(&self) -> (mti: &MTI)
        ensures
            mti.0@ == self@.mti,
    {
        &self.mti
    }

    /// The bitmap.
    pub fn bitmap(&self) -> (bitmap: &BitMap)
        ensures
            bitmap@ == self@.bits,
    {
        &self.bitmap
    }

    /// The data element at `id`, if it is present.
    pub fn field(&self, id: usize) -> (f: Option<&Field>)
        ensures
            match self@.field(id as nat) {
                Some(payload) => f is Some && f->Some_0@ == payload,
                None => f is None,
            },
    {
        if id >= self.fields.len() {
            None
        } else {
            self.fields[id].as_ref()
        }
    }

    /// Stores `value` as the data element at `idx` and sets its bit, with
    /// the continuation bits that the bit needs.
    pub fn set_field(&mut self, idx: usize, value: Bytes)
        requires
            idx < old(self)@.bits.len() || idx + 64 <= MAX_BITS,
        ensures
            final(self)@ == old(self)@.with_field(idx as nat, bytes_seq(value)),
            final(self)@.field(idx as nat) == Some(bytes_seq(value)),
            final(self)@.test(idx as nat),
            old(self)@.consistent() ==> final(self)@.consistent(),
            final(self).schema() == old(self).schema(),
    {
        proof {
            lemma_with_field(self@, idx as nat, bytes_seq(value));
            if self@.consistent() {
                lemma_with_field_consistent(self@, idx as nat, bytes_seq(value));
            }
        }
        let ghost table = self.fields@;
        while self.fields.len() <= idx
            invariant
                self.fields@.len() >= table.len(),
                self.mti == old(self).mti,
                self.bitmap == old(self).bitmap,
                self.spec == old(self).spec,
                table == old(self).fields@,
                forall|i: int| 0 <= i < table.len() ==> self.fields@[i] == table[i],
                forall|i: int| table.len() <= i < self.fields@.len() ==> self.fields@[i] is None,
            decreases idx + 1 - self.fields.len(),
        {
            self.fields.push(None);
        }
        self.fields.set(idx, Some(Field::from_bytes(value)));
        self.bitmap.set(idx);
        assert(table_fields(self.fields@) =~= table_fields(table).insert(
            idx as nat,
            bytes_seq(value),
        ));
    }

    /// Takes the data element at `idx` out and clears its bit.
    pub fn clear_field(&mut self, idx: usize)
        ensures
            final(self)@ == old(self)@.without_field(idx as nat),
            final(self)@.field(idx as nat) is None,
            !final(self)@.test(idx as nat),
            old(self)@.consistent() ==> final(self)@.consistent(),
            final(self).schema() == old(self).schema(),
    {
        proof {
            if self@.consistent() {
                lemma_without_field_consistent(self@, idx as nat);
            }
        }
        let ghost table = self.fields@;
        if idx < self.fields.len() {
            self.fields.set(idx, None);
        }
        self.bitmap.clear(idx);
        assert(table_fields(self.fields@) =~= table_fields(table).remove(idx as nat));
    }

    /// Writes the message: the indicator, the bitmap, then each data element
    /// that is marked and present, as its schema says.
    pub fn serialize(&self, codec: &Codec) -> (r: Result<BytesMut, RS8583Error>)
        ensures
            match wire_message(self@, self.schema(), *codec) {
                Ok(wire) => r is Ok && bytes_mut_seq(r->Ok_0) == wire,
                Err(text) => r is Err && r->Err_0.message() == text,
            },
    {
        let ghost all = set_indices(self@.bits);
        let mut buf = BytesMut::with_capacity(32);
        buf.extend_from_slice(self.mti.0.as_slice());
        self.bitmap.serialize(&mut buf);
        let ghost head = bytes_mut_seq(buf);
        assert(head == self@.mti + bitmap_wire(self@.bits));
        let idxs = self.bitmap.iter_set();
        let mut j: usize = 0;
        while j < idxs.len()
            invariant
                j <= idxs.len(),
                all == set_indices(self@.bits),
                idxs@.len() == all.len(),
                forall|k: int| 0 <= k < idxs@.len() ==> idxs@[k] as nat == all[k],
                wire_fields(self.schema(), *codec, all.take(j as int), self@.fields) is Ok,
                bytes_mut_seq(buf) == head + wire_fields(
                    self.schema(),
                    *codec,
                    all.take(j as int),
                    self@.fields,
                )->Ok_0,
            decreases idxs.len() - j,
        {
            let idx = idxs[j];
            proof {
                assert(all.take(j + 1).drop_last() == all.take(j as int));
                assert(all.take(j + 1).last() == idx as nat);
            }
            let ghost out = wire_fields(
                self.schema(),
                *codec,
                all.take(j as int),
                self@.fields,
            )->Ok_0;
            if let Some(field) = self.field(idx) {
                match self.spec.get(idx) {
                    None => {},
                    Some(field_spec) => {
                        match field_spec.serialize_field(codec, &mut buf, field) {
                            Ok(()) => {
                                assert(bytes_mut_seq(buf) == head + (out + field_spec.field_wire(
                                    *codec,
                                    field@,
                                )->Ok_0));
                            },
                            Err(e) => {
                                proof {
                                    lemma_wire_error_stays(
                                        self.schema(),
                                        *codec,
                                        all,
                                        self@.fields,
                                        j + 1,
                                    );
                                }
                                return Err(e);
                            },
                        }
                    },
                }
            }
            j += 1;
        }
        assert(all.take(j as int) == all);
        Ok(buf)
    }
}

} // verus!
