//! Decoding undoes encoding and encoding undoes decoding.
use vstd::prelude::*;
use crate::bytes::{
    be_bytes, be_value, lemma_be_bytes_leading, lemma_be_bytes_len, lemma_be_bytes_len_usize,
    lemma_be_bytes_of_be_value, lemma_be_bytes_unique, lemma_be_value_bound,
    lemma_be_value_of_be_bytes, lemma_be_value_take,
};
use crate::model::{encode_list, is_primitive_tag, len_bytes, tag_bytes, TlvView, ValueView};
use crate::wire::{
    first_final_octet, is_long_form_octet, lemma_first_final_octet, lemma_header_bounds, parse,
    parse_list, read_header, read_len_field, read_tag, tag_last, Header,
};
use crate::TlvError;

verus! {

/// Whether `field` is a whole tag field: one octet whose low five bits are
/// not all ones, or an octet whose low five bits are all ones, then octets
/// with the high bit set, then one with the high bit clear.
pub open spec fn is_tag_field(field: Seq<u8>) -> bool {
    if field.len() <= 1 {
        field.len() == 1 && !is_long_form_octet(field[0])
    } else {
        &&& is_long_form_octet(field[0])
        &&& forall|i: int| 1 <= i < field.len() - 1 ==> field[i] >= 0x80
        &&& field.last() < 0x80
    }
}

/// Whether `tag` is a tag number that decoding can give: it is not zero,
/// fits `usize`, and its octets are a whole tag field.
pub open spec fn is_tag_number(tag: nat) -> bool {
    0 < tag <= usize::MAX && is_tag_field(tag_bytes(tag))
}

/// The scan for the final octet of a tag field stops at the first octet
/// whose high bit is clear.
pub proof fn lemma_first_final_octet_at(s: Seq<u8>, from: int, end: int)
    requires
        0 <= from <= end < s.len(),
        forall|i: int| from <= i < end ==> s[i] >= 0x80,
        s[end] < 0x80,
    ensures
        first_final_octet(s, from) == end,
    decreases end - from,
{
    if from < end {
        lemma_first_final_octet_at(s, from + 1, end);
    }
}

/// A tag field that was read spells its tag number in the shortest way,
/// and the tag number is one that decoding can give.
pub proof fn lemma_read_tag_ok(s: Seq<u8>)
    requires
        read_tag(s) is Ok,
    ensures
        1 <= read_tag(s)->Ok_0.1 <= s.len(),
        tag_bytes(read_tag(s)->Ok_0.0) == s.take(read_tag(s)->Ok_0.1 as int),
        is_tag_number(read_tag(s)->Ok_0.0),
{
    reveal(read_tag);
    let last = tag_last(s);
    let field = s.take(last + 1);
    if is_long_form_octet(s[0]) {
        lemma_first_final_octet(s, 1);
    } else {
        lemma_be_value_take(s, 0);
    }
    lemma_be_bytes_of_be_value(field);
}

/// The tag field of a tag number that decoding can give is read back as
/// that number, whatever follows the field.
pub proof fn lemma_read_tag_of_tag_bytes(tag: nat, rest: Seq<u8>)
    requires
        is_tag_number(tag),
    ensures
        read_tag(tag_bytes(tag) + rest) == Ok::<(nat, nat), TlvError>(
            (tag, tag_bytes(tag).len()),
        ),
{
    reveal(read_tag);
    let field = tag_bytes(tag);
    let s = field + rest;
    lemma_be_value_of_be_bytes(tag);
    if field.len() > 1 {
        lemma_first_final_octet_at(s, 1, field.len() - 1);
    }
    assert(s.take(field.len() as int) =~= field);
}

/// A length field that was read holds a length that fits `usize`, and is
/// at least as long as the length field that stands for that length.
pub proof fn lemma_read_len_field_ok(s: Seq<u8>)
    requires
        read_len_field(s) is Ok,
    ensures
        read_len_field(s)->Ok_0.0 <= usize::MAX,
        1 <= read_len_field(s)->Ok_0.1 <= s.len(),
        len_bytes(read_len_field(s)->Ok_0.0).len() <= read_len_field(s)->Ok_0.1,
{
    reveal(read_len_field);
    if s[0] >= 0x80 {
        let count = s[0] - 0x80;
        let digits = s.subrange(1, 1 + count);
        lemma_be_value_bound(digits);
        lemma_be_bytes_len(be_value(digits), digits.len());
    }
}

/// The length field that stands for a length is read back as that length,
/// whatever follows the field.
pub proof fn lemma_read_len_field_of_len_bytes(len: nat, rest: Seq<u8>)
    requires
        len <= usize::MAX,
    ensures
        read_len_field(len_bytes(len) + rest) == Ok::<(nat, nat), TlvError>(
            (len, len_bytes(len).len()),
        ),
{
    reveal(read_len_field);
    let s = len_bytes(len) + rest;
    if len >= 0x80 {
        let digits = be_bytes(len);
        lemma_be_bytes_len_usize(len as usize);
        lemma_be_bytes_leading(len);
        lemma_be_value_of_be_bytes(len);
        assert(s.subrange(1, 1 + digits.len() as int) =~= digits);
    }
}

/// A length field that was read and is as long as the field that stands
/// for its length is that field.
pub proof fn lemma_read_len_field_shortest(s: Seq<u8>)
    requires
        read_len_field(s) is Ok,
        len_bytes(read_len_field(s)->Ok_0.0).len() == read_len_field(s)->Ok_0.1,
    ensures
        s.take(read_len_field(s)->Ok_0.1 as int) == len_bytes(read_len_field(s)->Ok_0.0),
{
    reveal(read_len_field);
    let len = read_len_field(s)->Ok_0.0;
    let size = read_len_field(s)->Ok_0.1;
    if s[0] >= 0x80 {
        let digits = s.subrange(1, size as int);
        lemma_be_bytes_unique(digits);
        lemma_be_bytes_len_usize(len as usize);
    }
}

/// A larger length has no shorter a length field.
pub proof fn lemma_len_bytes_monotone(a: nat, b: nat)
    requires
        a <= b,
    ensures
        len_bytes(a).len() <= len_bytes(b).len(),
{
    if a >= 0x80 {
        lemma_be_bytes_len(b, be_bytes(b).len());
        lemma_be_bytes_len(a, be_bytes(b).len());
    }
}

/// No field holds a byte that it could do without: a tag field of more than
/// one octet and the octets of a long-form length do not start with a zero
/// byte, they spell the tag number and the length, and no byte string that
/// spells the same number is shorter.
pub proof fn law_fields_minimal(tag: nat, len: nat, other: Seq<u8>)
    ensures
        tag_bytes(tag).len() >= 1,
        be_value(tag_bytes(tag)) == tag,
        tag_bytes(tag).len() > 1 ==> tag_bytes(tag)[0] != 0,
        other.len() >= 1 && be_value(other) == tag ==> tag_bytes(tag).len() <= other.len(),
        len < 0x80 ==> len_bytes(len) == seq![len as u8],
        len >= 0x80 ==> len_bytes(len).len() >= 2 && len_bytes(len)[1] != 0 && be_value(
            len_bytes(len).skip(1),
        ) == len,
        len >= 0x80 && be_value(other) == len ==> len_bytes(len).len() <= 1 + other.len(),
        0x80 <= len <= usize::MAX ==> len_bytes(len)[0] == 0x80 + len_bytes(len).len() - 1,
{
    lemma_be_value_of_be_bytes(tag);
    lemma_be_value_of_be_bytes(len);
    if tag > 0 {
        lemma_be_bytes_leading(tag);
    } else {
        lemma_be_value_take(seq![0u8], 0);
    }
    if len >= 0x80 {
        lemma_be_bytes_leading(len);
        assert(len_bytes(len).skip(1) =~= be_bytes(len));
    }
    lemma_be_value_bound(other);
    lemma_be_bytes_len(tag, other.len());
    lemma_be_bytes_len(len, other.len());
    if len <= usize::MAX {
        lemma_be_bytes_len_usize(len as usize);
    }
}

/// A header that was read: its tag field spells the tag number in the
/// shortest way, the tag number is one that decoding can give, and its
/// length field is at least as long as the one that stands for the length.
pub proof fn lemma_read_header_ok(s: Seq<u8>)
    requires
        read_header(s) is Ok,
    ensures
        ({
            let h = read_header(s)->Ok_0;
            &&& is_tag_number(h.tag)
            &&& 1 <= h.tag_size
            &&& 1 <= h.len_size
            &&& h.total() <= s.len()
            &&& h.len <= usize::MAX
            &&& s.take(h.tag_size as int) == tag_bytes(h.tag)
            &&& len_bytes(h.len).len() <= h.len_size
        }),
{
    lemma_read_tag_ok(s);
    lemma_read_len_field_ok(s.skip(read_tag(s)->Ok_0.1 as int));
}

/// The tag field of `tag` and the length field of `len`, followed by at
/// least `len` bytes, are read back as that tag number and that length.
pub proof fn lemma_read_header_of_fields(tag: nat, len: nat, rest: Seq<u8>)
    requires
        is_tag_number(tag),
        len <= usize::MAX,
        len <= rest.len(),
    ensures
        read_header(tag_bytes(tag) + len_bytes(len) + rest) == Ok::<Header, TlvError>(
            Header {
                tag,
                tag_size: tag_bytes(tag).len(),
                len,
                len_size: len_bytes(len).len(),
            },
        ),
{
    let s = tag_bytes(tag) + len_bytes(len) + rest;
    lemma_read_tag_of_tag_bytes(tag, len_bytes(len) + rest);
    assert(s =~= tag_bytes(tag) + (len_bytes(len) + rest));
    assert(s.skip(tag_bytes(tag).len() as int) =~= len_bytes(len) + rest);
    lemma_read_len_field_of_len_bytes(len, rest);
}

/// The nodes of `list` as decoding gives them back.
pub open spec fn decoded_list(list: Seq<TlvView>) -> Seq<TlvView>
    decreases list,
{
    if list.len() == 0 {
        Seq::empty()
    } else {
        seq![list.first().decoded()] + decoded_list(list.drop_first())
    }
}

impl TlvView {
    /// Every tag number of the tree is one that decoding can give.
    pub open spec fn has_tag_numbers(self) -> bool
        decreases self,
    {
        &&& is_tag_number(self.tag)
        &&& self.val matches ValueView::TlvList(list) ==> forall|i: int|
            0 <= i < list.len() ==> (#[trigger] list[i]).has_tag_numbers()
    }

    /// The tree as decoding gives it back: a `Nothing` stands as no bytes
    /// under a primitive tag and as no children under a constructed one.
    pub open spec fn decoded(self) -> TlvView
        decreases self,
    {
        TlvView {
            tag: self.tag,
            val: match self.val {
                ValueView::TlvList(list) => ValueView::TlvList(decoded_list(list)),
                ValueView::Val(bytes) => ValueView::Val(bytes),
                ValueView::Nothing => if is_primitive_tag(self.tag) {
                    ValueView::Val(Seq::empty())
                } else {
                    ValueView::TlvList(Seq::empty())
                },
            },
        }
    }
}

/// A tree and the tree as decoding gives it back have the same encoding.
pub proof fn lemma_decoded_encoding(t: TlvView)
    ensures
        t.decoded().encoding() == t.encoding(),
    decreases t, 1nat,
{
    match t.val {
        ValueView::TlvList(list) => {
            lemma_decoded_list_encoding(list);
        },
        _ => {},
    }
}

/// A list and the list as decoding gives it back have the same encoding.
pub proof fn lemma_decoded_list_encoding(list: Seq<TlvView>)
    ensures
        encode_list(decoded_list(list)) == encode_list(list),
        decoded_list(list).len() == list.len(),
    decreases list, 0nat,
{
    if list.len() > 0 {
        lemma_decoded_encoding(list.first());
        lemma_decoded_list_encoding(list.drop_first());
        let d = decoded_list(list);
        assert(d.drop_first() =~= decoded_list(list.drop_first()));
    }
}

/// Decoding the encoding of a tree, whatever follows it, gives the tree
/// back as [`TlvView::decoded`] describes, and takes the encoding's bytes
/// for the node.
pub proof fn lemma_decode_encode(t: TlvView, rest: Seq<u8>)
    requires
        t.well_formed(),
        t.has_tag_numbers(),
        t.encoding().len() <= usize::MAX,
    ensures
        parse(t.encoding() + rest) == Ok::<TlvView, TlvError>(t.decoded()),
        read_header(t.encoding() + rest) is Ok,
        read_header(t.encoding() + rest)->Ok_0.total() == t.encoding().len(),
    decreases t, 1nat,
{
    let body = t.val.bytes();
    let s = t.encoding() + rest;
    lemma_read_header_of_fields(t.tag, body.len(), body + rest);
    assert(s =~= tag_bytes(t.tag) + len_bytes(body.len()) + (body + rest));
    let h = read_header(s)->Ok_0;
    assert(s.subrange(h.size() as int, h.total() as int) =~= body);
    match t.val {
        ValueView::TlvList(list) => {
            lemma_decode_encode_list(list);
        },
        _ => {},
    }
}

/// Decoding the encoding of a list gives the list back as
/// [`decoded_list`] describes.
pub proof fn lemma_decode_encode_list(list: Seq<TlvView>)
    requires
        forall|i: int| 0 <= i < list.len() ==> (#[trigger] list[i]).well_formed(),
        forall|i: int| 0 <= i < list.len() ==> (#[trigger] list[i]).has_tag_numbers(),
        encode_list(list).len() <= usize::MAX,
    ensures
        parse_list(encode_list(list)) == Ok::<Seq<TlvView>, TlvError>(decoded_list(list)),
    decreases list, 0nat,
{
    if list.len() > 0 {
        let first = list.first();
        let others = list.drop_first();
        let s = encode_list(list);
        lemma_decode_encode(first, encode_list(others));
        lemma_decode_encode_list(others);
        assert(s.skip(first.encoding().len() as int) =~= encode_list(others));
        lemma_read_header_ok(s);
    }
}

/// Decoding undoes encoding: the encoding of a tree decodes to the tree's
/// [`TlvView::decoded`] form, which encodes to the same bytes again, so that
/// the tree, its encoding and what the encoding decodes to all have the
/// same encoded length.
///
/// This holds of a tree whose nodes all hold a value that fits the tag and
/// a tag number that decoding can give, and whose encoding is no longer
/// than `usize::MAX`.
pub proof fn law_decode_encode(t: TlvView)
    requires
        t.well_formed(),
        t.has_tag_numbers(),
        t.encoding().len() <= usize::MAX,
    ensures
        parse(t.encoding()) == Ok::<TlvView, TlvError>(t.decoded()),
        t.decoded().encoding() == t.encoding(),
        parse(t.encoding())->Ok_0.encoding().len() == t.encoding().len(),
{
    lemma_decode_encode(t, Seq::empty());
    lemma_decoded_encoding(t);
}

/// Whether the node at the front of `s` decodes and has each of its length
/// fields, its own and those of the nodes under it, in the shortest form.
pub open spec fn is_minimal(s: Seq<u8>) -> bool
    decreases s.len(), 0nat,
{
    match read_header(s) {
        Err(_) => false,
        Ok(h) => {
            &&& s.subrange(h.tag_size as int, h.size() as int) == len_bytes(h.len)
            &&& is_primitive_tag(h.tag) || {
                proof {
                    lemma_header_bounds(s);
                }
                is_minimal_list(s.subrange(h.size() as int, h.total() as int))
            }
        },
    }
}

/// Whether `s` is made of nodes that are each as [`is_minimal`] asks.
pub open spec fn is_minimal_list(s: Seq<u8>) -> bool
    decreases s.len(), 1nat,
{
    s.len() == 0 || match read_header(s) {
        Err(_) => false,
        Ok(h) => {
            &&& is_minimal(s)
            &&& {
                proof {
                    lemma_header_bounds(s);
                }
                is_minimal_list(s.skip(h.total() as int))
            }
        },
    }
}

/// Whether `s` is one node in the shortest form and nothing more.
pub open spec fn is_single_tlv(s: Seq<u8>) -> bool {
    is_minimal(s) && read_header(s)->Ok_0.total() == s.len()
}

/// A node in the shortest form decodes to a tree whose encoding is the
/// bytes of the node.
pub proof fn lemma_encode_decode(s: Seq<u8>)
    requires
        is_minimal(s),
    ensures
        parse(s) is Ok,
        parse(s)->Ok_0.encoding() == s.take(read_header(s)->Ok_0.total() as int),
    decreases s.len(), 0nat,
{
    let h = read_header(s)->Ok_0;
    lemma_read_header_ok(s);
    let body = s.subrange(h.size() as int, h.total() as int);
    if !is_primitive_tag(h.tag) {
        lemma_encode_decode_list(body);
    }
}

/// Nodes in the shortest form decode to a list whose encoding is the bytes
/// of the nodes.
pub proof fn lemma_encode_decode_list(s: Seq<u8>)
    requires
        is_minimal_list(s),
    ensures
        parse_list(s) is Ok,
        encode_list(parse_list(s)->Ok_0) == s,
    decreases s.len(), 1nat,
{
    if s.len() > 0 {
        let h = read_header(s)->Ok_0;
        lemma_header_bounds(s);
        lemma_encode_decode(s);
        lemma_encode_decode_list(s.skip(h.total() as int));
        let list = parse_list(s)->Ok_0;
        assert(list.drop_first() =~= parse_list(s.skip(h.total() as int))->Ok_0);
    }
}

/// Encoding undoes decoding: bytes that are one node in the shortest form,
/// and nothing more, decode to a tree whose encoding is these bytes.
pub proof fn law_encode_decode(b: Seq<u8>)
    requires
        is_single_tlv(b),
    ensures
        parse(b) is Ok,
        parse(b)->Ok_0.encoding() == b,
{
    lemma_encode_decode(b);
}

/// What decoding gives: a tree whose nodes all hold a value that fits the
/// tag and a tag number that decoding can give, which decoding gives back
/// unchanged, and whose encoding is no longer than the bytes of the node.
pub proof fn lemma_parse_ok(s: Seq<u8>)
    requires
        parse(s) is Ok,
    ensures
        parse(s)->Ok_0.well_formed(),
        parse(s)->Ok_0.has_tag_numbers(),
        parse(s)->Ok_0.decoded() == parse(s)->Ok_0,
        parse(s)->Ok_0.encoding().len() <= read_header(s)->Ok_0.total() <= s.len(),
    decreases s.len(), 0nat,
{
    let h = read_header(s)->Ok_0;
    let t = parse(s)->Ok_0;
    lemma_read_header_ok(s);
    let body = s.subrange(h.size() as int, h.total() as int);
    if !is_primitive_tag(h.tag) {
        lemma_parse_list_ok(body);
        lemma_len_bytes_monotone(t.val.bytes().len(), h.len);
    }
}

/// What decoding gives for a list: the same of each of its nodes, and an
/// encoding no longer than the bytes.
pub proof fn lemma_parse_list_ok(s: Seq<u8>)
    requires
        parse_list(s) is Ok,
    ensures
        forall|i: int|
            0 <= i < parse_list(s)->Ok_0.len() ==> (#[trigger] parse_list(
                s,
            )->Ok_0[i]).well_formed(),
        forall|i: int|
            0 <= i < parse_list(s)->Ok_0.len() ==> (#[trigger] parse_list(
                s,
            )->Ok_0[i]).has_tag_numbers(),
        decoded_list(parse_list(s)->Ok_0) == parse_list(s)->Ok_0,
        encode_list(parse_list(s)->Ok_0).len() <= s.len(),
    decreases s.len(), 1nat,
{
    if s.len() > 0 {
        let h = read_header(s)->Ok_0;
        lemma_header_bounds(s);
        lemma_parse_ok(s);
        let tail = s.skip(h.total() as int);
        lemma_parse_list_ok(tail);
        let list = parse_list(s)->Ok_0;
        let others = parse_list(tail)->Ok_0;
        assert(list.drop_first() =~= others);
    }
}

/// A node that decodes to a tree whose encoding is as long as the node is
/// in the shortest form.
pub proof fn lemma_minimal_by_length(s: Seq<u8>)
    requires
        parse(s) is Ok,
        parse(s)->Ok_0.encoding().len() == read_header(s)->Ok_0.total(),
    ensures
        is_minimal(s),
    decreases s.len(), 0nat,
{
    let h = read_header(s)->Ok_0;
    let t = parse(s)->Ok_0;
    lemma_read_header_ok(s);
    let body = s.subrange(h.size() as int, h.total() as int);
    let behind_tag = s.skip(h.tag_size as int);
    if !is_primitive_tag(h.tag) {
        lemma_parse_list_ok(body);
        lemma_len_bytes_monotone(t.val.bytes().len(), h.len);
        lemma_minimal_list_by_length(body);
    }
    lemma_read_len_field_shortest(behind_tag);
    assert(behind_tag.take(h.len_size as int) =~= s.subrange(h.tag_size as int, h.size() as int));
}

/// Nodes that decode to a list whose encoding is as long as the nodes are
/// in the shortest form.
pub proof fn lemma_minimal_list_by_length(s: Seq<u8>)
    requires
        parse_list(s) is Ok,
        encode_list(parse_list(s)->Ok_0).len() == s.len(),
    ensures
        is_minimal_list(s),
    decreases s.len(), 1nat,
{
    if s.len() > 0 {
        let h = read_header(s)->Ok_0;
        lemma_header_bounds(s);
        let tail = s.skip(h.total() as int);
        lemma_parse_ok(s);
        lemma_parse_list_ok(tail);
        let list = parse_list(s)->Ok_0;
        assert(list.drop_first() =~= parse_list(tail)->Ok_0);
        lemma_minimal_by_length(s);
        lemma_minimal_list_by_length(tail);
    }
}

/// Of the bytes at the front of which a node decodes, the node is in the
/// shortest form just where the tree's encoding is as long as the node.
/// Its encoding is then the bytes of the node, and else shorter than the
/// node.
pub proof fn law_minimal_by_length(s: Seq<u8>)
    requires
        parse(s) is Ok,
    ensures
        parse(s)->Ok_0.encoding().len() <= read_header(s)->Ok_0.total(),
        is_minimal(s) <==> parse(s)->Ok_0.encoding().len() == read_header(s)->Ok_0.total(),
        is_minimal(s) <==> parse(s)->Ok_0.encoding() == s.take(
            read_header(s)->Ok_0.total() as int,
        ),
{
    lemma_parse_ok(s);
    if is_minimal(s) {
        lemma_encode_decode(s);
    }
    if parse(s)->Ok_0.encoding().len() == read_header(s)->Ok_0.total() {
        lemma_minimal_by_length(s);
    }
}

} // verus!
