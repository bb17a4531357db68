//! What is read from the wire is written back as it was, and what is written
//! is read back as it was: the laws that tie reading to writing, from the
//! digits of a length prefix up to the message.

use vstd::prelude::*;
use crate::bitmap::{
    bitmap_wire, lemma_bitmap_reads_back, lemma_bitmap_wire_bits, lemma_read_bitmap,
    lemma_set_indices, read_bitmap, set_indices,
};
use crate::codec::{digit_base, Codec, VariableLengthFormat};
use crate::msg::{parse_fields, parse_message, wire_fields, wire_message, MessageView};
use crate::spec::{
    all_nines, first_invalid, lemma_first_invalid, lemma_largest_is_all_nines, prefix_value,
    FieldSpec, LengthType, MessageSpec,
};
use crate::text::{decimal_digits, digit_bytes, lemma_decimal_digits_range, zero_padded};

verus! {

/// Where no byte of `s` is without a count, every byte counts.
pub proof fn lemma_all_valid(codec: Codec, s: Seq<u8>)
    requires
        first_invalid(codec, s) >= s.len(),
    ensures
        first_invalid(codec, s) == s.len(),
        forall|i: int| 0 <= i < s.len() ==> codec.digit_value(#[trigger] s[i]) is Some,
    decreases s.len(),
{
    if s.len() > 0 {
        let t = s.skip(1);
        lemma_all_valid(codec, t);
        assert forall|i: int| 0 <= i < s.len() implies codec.digit_value(#[trigger] s[i]) is Some by {
            if i > 0 {
                assert(s[i] == t[i - 1]);
            }
        }
    }
}

proof fn lemma_zero_padded_push(ds: Seq<u8>, d: u8, width: nat)
    requires
        ds.len() <= width,
    ensures
        zero_padded(ds.push(d), width + 1) == zero_padded(ds, width).push(d),
{
    if ds.len() < width {
        let zeros = Seq::new((width - ds.len()) as nat, |i: int| 0u8);
        assert(zeros + ds.push(d) == (zeros + ds).push(d));
    }
}

/// The digits of a length prefix, written again from the number they give,
/// are the same digits: a prefix of decimal digits that is read and then
/// written with as many digits stays as it is.
pub proof fn lemma_digits_round_trip(codec: Codec, s: Seq<u8>)
    requires
        codec.ll_format() == VariableLengthFormat::Symbolic,
        s.len() >= 1,
        forall|i: int| 0 <= i < s.len() ==> codec.digit_value(#[trigger] s[i]) is Some,
    ensures
        digit_bytes(
            digit_base(codec.length_encoding()),
            zero_padded(decimal_digits(prefix_value(codec, s)), s.len()),
        ) == s,
    decreases s.len(),
{
    let base = digit_base(codec.length_encoding());
    let front = s.drop_last();
    let last = (s.last() - base) as u8;
    let before = prefix_value(codec, front);
    if s.len() > 1 {
        assert forall|i: int| 0 <= i < front.len() implies codec.digit_value(
            #[trigger] front[i],
        ) is Some by {
            assert(front[i] == s[i]);
        }
        lemma_digits_round_trip(codec, front);
        let width = front.len();
        let digits = decimal_digits(before);
        lemma_decimal_digits_range(before);
        if before == 0 {
            // the digits before the last are all zero, and so stay padding
            assert(zero_padded(seq![last], width + 1) == zero_padded(seq![0u8], width).push(last));
        } else {
            assert(decimal_digits(prefix_value(codec, s)) == digits.push(last));
            lemma_zero_padded_push(digits, last, width);
        }
        assert(digit_bytes(base, zero_padded(digits, width).push(last)) == digit_bytes(
            base,
            zero_padded(digits, width),
        ).push(s.last()));
    }
}

/// A field that is read and then written stays as it was: where the size
/// of a payload is found at the head of `data` and so many bytes follow, the
/// field written from that payload is the stretch of `data` that was read.
pub proof fn lemma_field_round_trip(fs: FieldSpec, codec: Codec, data: Seq<u8>)
    requires
        fs.read_length(codec, data).0 is Ok,
        fs.read_length(codec, data).1.len() >= fs.read_length(codec, data).0->Ok_0,
    ensures
        ({
            let (outcome, rest) = fs.read_length(codec, data);
            let size = outcome->Ok_0 as int;
            &&& rest.len() <= data.len()
            &&& fs.field_wire(codec, rest.take(size)) == Ok::<Seq<u8>, Seq<char>>(
                data.take(data.len() - rest.len() + size),
            )
            &&& data.skip(data.len() - rest.len() + size) == rest.skip(size)
        }),
{
    let (outcome, rest) = fs.read_length(codec, data);
    let size = outcome->Ok_0 as int;
    let payload = rest.take(size);
    match fs.length_type {
        LengthType::BitMap => {
            assert(data.take(0) == Seq::<u8>::empty());
        },
        LengthType::Fixed => {},
        _ => {
            let n = codec.prefix_width(fs.length_type.digits());
            let prefix = data.take(n as int);
            lemma_all_valid(codec, prefix);
            match codec.ll_format() {
                VariableLengthFormat::Byte => {
                    assert(prefix_value(codec, prefix.drop_last()) == 0);
                    assert(seq![size as u8] == prefix);
                },
                VariableLengthFormat::Symbolic => {
                    lemma_digits_round_trip(codec, prefix);
                },
            }
            assert(codec.prefix_bytes(fs.length_type.digits(), payload.len()) == Ok::<
                Seq<u8>,
                Seq<char>,
            >(prefix));
            assert(prefix + payload == data.take(n + size));
        },
    }
}

/// The data elements that are read and then written stay as they were.
/// Where reading the elements `idxs`, which ascend, from `data` gives
/// `fields` and leaves `rest`, writing them from any table that holds the
/// same at each of `idxs` gives `data` without `rest`.
pub proof fn lemma_fields_round_trip(
    spec: MessageSpec,
    codec: Codec,
    idxs: Seq<nat>,
    data: Seq<u8>,
    table: Map<nat, Seq<u8>>,
)
    requires
        forall|k: int, l: int| 0 <= k < l < idxs.len() ==> idxs[k] < idxs[l],
        parse_fields(spec, codec, idxs, data) is Ok,
        forall|k: int|
            0 <= k < idxs.len() ==> {
                let idx = #[trigger] idxs[k];
                let fields = parse_fields(spec, codec, idxs, data)->Ok_0.0;
                table.dom().contains(idx) == fields.dom().contains(idx) && (fields.dom().contains(
                    idx,
                ) ==> table[idx] == fields[idx])
            },
    ensures
        ({
            let rest = parse_fields(spec, codec, idxs, data)->Ok_0.1;
            &&& rest.len() <= data.len()
            &&& data.skip(data.len() - rest.len()) == rest
            &&& wire_fields(spec, codec, idxs, table) == Ok::<Seq<u8>, Seq<char>>(
                data.take(data.len() - rest.len()),
            )
        }),
    decreases idxs.len(),
{
    if idxs.len() == 0 {
        assert(data.take(0) == Seq::<u8>::empty());
    } else {
        let front = idxs.drop_last();
        let idx = idxs.last();
        let (fields0, rest0) = parse_fields(spec, codec, front, data)->Ok_0;
        let rest = parse_fields(spec, codec, idxs, data)->Ok_0.1;
        // the last step stores at `idx` alone, which is none of the places before it
        assert forall|k: int| 0 <= k < front.len() implies {
            let i = #[trigger] front[k];
            table.dom().contains(i) == fields0.dom().contains(i) && (fields0.dom().contains(i)
                ==> table[i] == fields0[i])
        } by {
            assert(front[k] == idxs[k]);
            assert(idxs[k] < idxs[idxs.len() - 1]);
        }
        lemma_fields_round_trip(spec, codec, front, data, table);
        let out = data.take(data.len() - rest0.len());
        match spec.slot(idx) {
            None => {},
            Some(fs) => {
                let (outcome, after) = fs.read_length(codec, rest0);
                let size = outcome->Ok_0 as int;
                lemma_field_round_trip(fs, codec, rest0);
                let wire = rest0.take(rest0.len() - after.len() + size);
                assert(fs.field_wire(codec, after.take(size)) == Ok::<Seq<u8>, Seq<char>>(wire));
                assert(out + wire == data.take(data.len() - rest.len()));
            },
        }
    }
}

/// A message that is read and then written stays as it was: where reading
/// `data` gives a message and leaves `rest`, writing the message gives
/// `data` without `rest`; so where nothing is left, it gives `data`.
pub proof fn lemma_message_round_trip(spec: MessageSpec, codec: Codec, data: Seq<u8>)
    requires
        parse_message(spec, codec, data) is Ok,
    ensures
        ({
            let (view, rest) = parse_message(spec, codec, data)->Ok_0;
            &&& rest.len() <= data.len()
            &&& wire_message(view, spec, codec) == Ok::<Seq<u8>, Seq<char>>(
                data.take(data.len() - rest.len()),
            )
            &&& rest.len() == 0 ==> wire_message(view, spec, codec) == Ok::<Seq<u8>, Seq<char>>(
                data,
            )
        }),
{
    let (view, rest) = parse_message(spec, codec, data)->Ok_0;
    let bits = read_bitmap(data.skip(4))->Some_0;
    lemma_read_bitmap(data.skip(4));
    lemma_set_indices(bits);
    let chunks = bits.len() as int / 8;
    let body = data.skip(4 + chunks);
    lemma_fields_round_trip(spec, codec, set_indices(bits), body, view.fields);
    assert(data.take(4) + data.skip(4).take(chunks) + body.take(body.len() - rest.len())
        == data.take(data.len() - rest.len()));
    if rest.len() == 0 {
        assert(data.take(data.len() as int) == data);
    }
}

/// A number that is no more than so many nines has no more decimal digits.
pub proof fn lemma_decimal_digits_fit(n: nat, width: nat)
    requires
        width >= 1,
        n <= all_nines(width),
    ensures
        decimal_digits(n).len() <= width,
    decreases width,
{
    reveal_with_fuel(all_nines, 2);
    if n >= 10 {
        lemma_decimal_digits_fit(n / 10, (width - 1) as nat);
    }
}

/// The number that decimal digits give, the first digit counting most.
spec fn digits_value(ds: Seq<u8>) -> nat
    decreases ds.len(),
{
    if ds.len() == 0 {
        0
    } else {
        digits_value(ds.drop_last()) * 10 + ds.last() as nat
    }
}

proof fn lemma_decimal_digits_value(n: nat)
    ensures
        digits_value(decimal_digits(n)) == n,
    decreases n,
{
    let digits = decimal_digits(n);
    assert(digits.last() == (n % 10) as u8);
    if n >= 10 {
        lemma_decimal_digits_value(n / 10);
        assert(digits.drop_last() == decimal_digits(n / 10));
    } else {
        assert(digits_value(digits.drop_last()) == 0);
    }
}

proof fn lemma_zeros_value(zeros: nat, ds: Seq<u8>)
    requires
        ds.len() >= 1,
    ensures
        digits_value(Seq::new(zeros, |i: int| 0u8) + ds) == digits_value(ds),
    decreases ds.len(),
{
    let padding = Seq::new(zeros, |i: int| 0u8);
    let all = padding + ds;
    assert(all.last() == ds.last());
    if ds.len() == 1 {
        assert(all.drop_last() == padding);
        lemma_padding_value(zeros);
        assert(digits_value(ds.drop_last()) == 0);
    } else {
        assert(all.drop_last() == padding + ds.drop_last());
        lemma_zeros_value(zeros, ds.drop_last());
    }
}

proof fn lemma_padding_value(zeros: nat)
    ensures
        digits_value(Seq::new(zeros, |i: int| 0u8)) == 0,
    decreases zeros,
{
    if zeros > 0 {
        lemma_padding_value((zeros - 1) as nat);
        assert(Seq::new(zeros, |i: int| 0u8).drop_last() == Seq::new(
            (zeros - 1) as nat,
            |i: int| 0u8,
        ));
    }
}

proof fn lemma_digit_bytes_value(codec: Codec, ds: Seq<u8>)
    requires
        codec.ll_format() == VariableLengthFormat::Symbolic,
        forall|i: int| 0 <= i < ds.len() ==> #[trigger] ds[i] < 10,
    ensures
        prefix_value(codec, digit_bytes(digit_base(codec.length_encoding()), ds)) == digits_value(
            ds,
        ),
    decreases ds.len(),
{
    let base = digit_base(codec.length_encoding());
    if ds.len() > 0 {
        assert(ds.last() == ds[ds.len() - 1]);
        assert forall|i: int| 0 <= i < ds.drop_last().len() implies #[trigger] ds.drop_last()[i]
            < 10 by {
            assert(ds.drop_last()[i] == ds[i]);
        }
        lemma_digit_bytes_value(codec, ds.drop_last());
        assert(digit_bytes(base, ds).drop_last() == digit_bytes(base, ds.drop_last()));
    }
}

/// A length that is written as a prefix of decimal digits is read back as it
/// was: where `n` has no more than `width` digits, the prefix written for it
/// has `width` bytes, every one a digit, and they give `n`.
pub proof fn lemma_prefix_reads_back(codec: Codec, width: nat, n: nat)
    requires
        codec.ll_format() == VariableLengthFormat::Symbolic,
        decimal_digits(n).len() <= width,
    ensures
        ({
            let prefix = digit_bytes(
                digit_base(codec.length_encoding()),
                zero_padded(decimal_digits(n), width),
            );
            &&& prefix.len() == width
            &&& first_invalid(codec, prefix) == width
            &&& prefix_value(codec, prefix) == n
        }),
{
    let base = digit_base(codec.length_encoding());
    let digits = decimal_digits(n);
    let padded = zero_padded(digits, width);
    let prefix = digit_bytes(base, padded);
    lemma_decimal_digits_range(n);
    assert forall|i: int| 0 <= i < padded.len() implies #[trigger] padded[i] < 10 by {}
    assert forall|j: int| 0 <= j < width implies codec.digit_value(#[trigger] prefix[j]) is Some by {
        assert(padded[j] < 10);
    }
    lemma_first_invalid(codec, prefix, width);
    lemma_digit_bytes_value(codec, padded);
    lemma_decimal_digits_value(n);
    if digits.len() < width {
        lemma_zeros_value((width - digits.len()) as nat, digits);
    }
}

/// A field that is written and then read stays as it was: where a payload
/// can be held by the schema, the field is written without error, and
/// reading at its head finds the size of the payload and the payload behind
/// the prefix, whatever follows the field.
pub proof fn lemma_field_reads_back(fs: FieldSpec, codec: Codec, payload: Seq<u8>, tail: Seq<u8>)
    requires
        fs.holds(codec, payload),
    ensures
        fs.field_wire(codec, payload) is Ok,
        fs.read_length(codec, fs.field_wire(codec, payload)->Ok_0 + tail) == (
            Ok::<nat, Seq<char>>(payload.len()),
            payload + tail,
        ),
{
    let wire = fs.field_wire(codec, payload)->Ok_0;
    let data = wire + tail;
    match fs.length_type {
        LengthType::BitMap => {
            assert(data == payload + tail);
        },
        LengthType::Fixed => {},
        _ => {
            let digits = fs.length_type.digits();
            let n = codec.prefix_width(digits);
            match codec.ll_format() {
                VariableLengthFormat::Byte => {
                    let prefix = seq![payload.len() as u8];
                    assert(data.take(1) == prefix);
                    assert(prefix.drop_last() == Seq::<u8>::empty());
                    assert(prefix_value(codec, prefix.drop_last()) == 0);
                    lemma_first_invalid(codec, prefix, 1);
                    assert(data.skip(1) == payload + tail);
                },
                VariableLengthFormat::Symbolic => {
                    lemma_largest_is_all_nines(fs.length_type);
                    lemma_decimal_digits_fit(payload.len(), digits);
                    lemma_prefix_reads_back(codec, digits, payload.len());
                    let prefix = codec.prefix_bytes(digits, payload.len())->Ok_0;
                    assert(data.take(n as int) == prefix);
                    assert(data.skip(n as int) == payload + tail);
                },
            }
        },
    }
}

/// The data elements among `idxs` that a schema describes, out of a table.
pub open spec fn described(spec: MessageSpec, idxs: Seq<nat>, fields: Map<nat, Seq<u8>>) -> Map<
    nat,
    Seq<u8>,
> {
    fields.restrict(Set::new(|idx: nat| idxs.contains(idx) && spec.slot(idx) is Some))
}

/// The data elements that are written and then read stay as they were.
/// Where each of `idxs` that the schema describes is present in the table
/// and can be held by its schema, writing them gives no error, and reading
/// them from what was written finds those data elements and leaves what
/// follows them.
pub proof fn lemma_fields_read_back(
    spec: MessageSpec,
    codec: Codec,
    idxs: Seq<nat>,
    fields: Map<nat, Seq<u8>>,
    tail: Seq<u8>,
)
    requires
        forall|k: int|
            0 <= k < idxs.len() ==> match spec.slot(#[trigger] idxs[k]) {
                Some(fs) => fields.dom().contains(idxs[k]) && fs.holds(codec, fields[idxs[k]]),
                None => true,
            },
    ensures
        wire_fields(spec, codec, idxs, fields) is Ok,
        parse_fields(spec, codec, idxs, wire_fields(spec, codec, idxs, fields)->Ok_0 + tail) == Ok::<
            (Map<nat, Seq<u8>>, Seq<u8>),
            Seq<char>,
        >((described(spec, idxs, fields), tail)),
    decreases idxs.len(),
{
    if idxs.len() == 0 {
        assert(Seq::<u8>::empty() + tail == tail);
        assert(described(spec, idxs, fields) =~= Map::empty());
    } else {
        let front = idxs.drop_last();
        let idx = idxs.last();
        assert forall|k: int| 0 <= k < front.len() implies match spec.slot(#[trigger] front[k]) {
            Some(fs) => fields.dom().contains(front[k]) && fs.holds(codec, fields[front[k]]),
            None => true,
        } by {
            assert(front[k] == idxs[k]);
        }
        assert(idxs[idxs.len() - 1] == idx);
        assert forall|i: nat| idxs.contains(i) <==> (front.contains(i) || i == idx) by {
            if front.contains(i) {
                let k = choose|k: int| 0 <= k < front.len() && front[k] == i;
                assert(idxs[k] == i);
            }
            if idxs.contains(i) && i != idx {
                let k = choose|k: int| 0 <= k < idxs.len() && idxs[k] == i;
                assert(front[k] == i);
            }
        }
        match spec.slot(idx) {
            None => {
                lemma_fields_read_back(spec, codec, front, fields, tail);
                assert(described(spec, idxs, fields) =~= described(spec, front, fields));
            },
            Some(fs) => {
                let payload = fields[idx];
                let wire = fs.field_wire(codec, payload)->Ok_0;
                lemma_field_reads_back(fs, codec, payload, tail);
                lemma_fields_read_back(spec, codec, front, fields, wire + tail);
                let out = wire_fields(spec, codec, front, fields)->Ok_0;
                assert((out + wire) + tail == out + (wire + tail));
                assert((payload + tail).take(payload.len() as int) == payload);
                assert((payload + tail).skip(payload.len() as int) == tail);
                assert(described(spec, idxs, fields) =~= described(spec, front, fields).insert(
                    idx,
                    payload,
                ));
            },
        }
    }
}

/// A message that is written and then read stays as it was: a writable
/// message is written without error, and reading what was written gives the
/// message and leaves what follows it.
pub proof fn lemma_message_reads_back(
    view: MessageView,
    spec: MessageSpec,
    codec: Codec,
    tail: Seq<u8>,
)
    requires
        view.writable(spec, codec),
    ensures
        wire_message(view, spec, codec) is Ok,
        parse_message(spec, codec, wire_message(view, spec, codec)->Ok_0 + tail) == Ok::<
            (MessageView, Seq<u8>),
            Seq<char>,
        >((view, tail)),
{
    let idxs = set_indices(view.bits);
    lemma_set_indices(view.bits);
    assert forall|k: int| 0 <= k < idxs.len() implies match spec.slot(#[trigger] idxs[k]) {
        Some(fs) => view.fields.dom().contains(idxs[k]) && fs.holds(codec, view.fields[idxs[k]]),
        None => true,
    } by {
        let idx = idxs[k];
        assert(view.test(idx) && idx % 64 != 0);
        assert(view.fields.dom().contains(idx) <==> spec.slot(idx) is Some);
    }
    lemma_fields_read_back(spec, codec, idxs, view.fields, tail);
    let body = wire_fields(spec, codec, idxs, view.fields)->Ok_0;
    let map = bitmap_wire(view.bits);
    let data = (view.mti + map + body) + tail;
    lemma_bitmap_wire_bits(view.bits);
    lemma_bitmap_reads_back(view.bits, body + tail);
    assert(data.take(4) == view.mti);
    assert(data.skip(4) == map + (body + tail));
    assert(data.skip(4 + view.bits.len() as int / 8) == body + tail);
    assert(described(spec, idxs, view.fields) =~= view.fields) by {
        assert forall|i: nat| view.fields.dom().contains(i) implies idxs.contains(i) by {
            assert(view.test(i));
        }
    }
    let read = parse_message(spec, codec, data)->Ok_0.0;
    assert(read =~= view);
}

} // verus!
