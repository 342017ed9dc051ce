//! TLV trees: construction, encoding and inspection.
use vstd::prelude::*;
use vstd::slice::{slice_subrange, slice_to_vec};
use crate::bytes::{
    be_bytes, be_value, lemma_be_bytes_first, lemma_be_bytes_len_usize, lemma_be_value_prefix,
    lemma_be_value_take, push_be_bytes,
};
use crate::model::{
    encode_list, is_constructed_octet, is_primitive_tag, lemma_encode_list_take,
    lemma_encoding_len, len_bytes,
    tag_bytes, TlvView, ValueView,
};
use crate::path::{first_with_tag, tag_numbers};
use crate::round_trip::lemma_parse_ok;
use crate::wire;
use crate::wire::{
    after, first_final_octet, is_long_form_octet, lemma_first_final_octet, lemma_header_bounds,
    lemma_parse_list_step, parse, parse_list, read_header,
};
use crate::TlvError;

verus! {

/// A tag number.
pub type Tag = usize;

/// What a node holds.
#[derive(Debug)]
pub enum Value {
    /// The children of a constructed node, in order.
    TlvList(Vec<Tlv>),
    /// The raw bytes of a primitive node.
    Val(Vec<u8>),
    /// No content.
    Nothing,
}

/// A node of a TLV tree: a tag number and what stands under it.
#[derive(Debug)]
pub struct Tlv {
    tag: Tag,
    val: Value,
}

impl View for Value {
    type V = ValueView;

    open spec fn view(&self) -> ValueView
        decreases self,
    {
        match self {
            Value::TlvList(list) => ValueView::TlvList(
                Seq::new(
                    list@.len(),
                    |i: int|
                        if 0 <= i < list@.len() {
                            list@[i].view()
                        } else {
                            arbitrary()
                        },
                ),
            ),
            Value::Val(bytes) => ValueView::Val(bytes@),
            Value::Nothing => ValueView::Nothing,
        }
    }
}

impl View for Tlv {
    type V = TlvView;

    closed spec fn view(&self) -> TlvView
        decreases self,
    {
        TlvView { tag: self.tag as nat, val: self.val.view() }
    }
}

/// The views of the nodes of `list`, in order.
pub open spec fn views_of(list: Seq<Tlv>) -> Seq<TlvView> {
    list.map_values(|node: Tlv| node@)
}

/// The view of a list of children is the list of the children's views.
pub proof fn lemma_view_of_list(list: Vec<Tlv>)
    ensures
        Value::TlvList(list)@ == ValueView::TlvList(views_of(list@)),
{
    assert(Value::TlvList(list)@->TlvList_0 =~= views_of(list@));
}

/// Returns the first node of `list` with the tag number `tag`, if there is
/// one.
fn first_child(list: &Vec<Tlv>, tag: Tag) -> (res: Option<&Tlv>)
    ensures
        match res {
            Some(child) => first_with_tag(views_of(list@), tag as nat) == Some(child@),
            None => first_with_tag(views_of(list@), tag as nat) is None,
        },
{
    let ghost views = views_of(list@);
    let mut i: usize = 0;
    proof {
        assert(views.skip(0) =~= views);
    }
    while i < list.len()
        invariant
            i <= list.len(),
            views == views_of(list@),
            first_with_tag(views, tag as nat) == first_with_tag(views.skip(i as int), tag as nat),
        decreases list.len() - i,
    {
        let child = &list[i];
        if child.tag == tag {
            return Some(child);
        }
        proof {
            assert(views.skip(i as int).drop_first() =~= views.skip(i + 1));
        }
        i += 1;
    }
    None
}

/// Tells whether `tag` is primitive.
pub(crate) fn tag_is_primitive(tag: Tag) -> (primitive: bool)
    ensures
        primitive == is_primitive_tag(tag as nat),
{
    let mut first = tag;
    while first >= 256
        invariant
            tag_bytes(first as nat)[0] == tag_bytes(tag as nat)[0],
        decreases first,
    {
        proof {
            lemma_be_bytes_first(first as nat);
        }
        first = first / 256;
    }
    proof {
        if first != 0 {
            lemma_be_bytes_first(first as nat);
        }
    }
    let octet = first as u8;
    assert(octet & 0x20 == 0 <==> !is_constructed_octet(octet)) by (bit_vector);
    octet & 0x20 == 0
}

/// Appends the tag field of `tag` to `out`.
pub(crate) fn push_tag_bytes(out: &mut Vec<u8>, tag: Tag)
    ensures
        final(out)@ == old(out)@ + tag_bytes(tag as nat),
{
    if tag == 0 {
        out.push(0);
    } else {
        push_be_bytes(out, tag);
    }
}

/// Appends the length field of `len` to `out`.
pub(crate) fn push_len_bytes(out: &mut Vec<u8>, len: usize)
    ensures
        final(out)@ == old(out)@ + len_bytes(len as nat),
{
    if len <= 0x7f {
        out.push(len as u8);
    } else {
        let mut digits: Vec<u8> = Vec::new();
        push_be_bytes(&mut digits, len);
        proof {
            lemma_be_bytes_len_usize(len);
        }
        let count = digits.len() as u8;
        assert(count <= 8 ==> 0x80 | count == 0x80 + count) by (bit_vector);
        out.push(0x80 | count);
        out.append(&mut digits);
    }
}

impl Tlv {
    /// What holds of every node: its value fits its tag.
    #[verifier::type_invariant]
    spec fn value_fits_tag(&self) -> bool {
        self.val@.fits(self.tag as nat)
    }

    /// Builds a node from a tag and what stands under it.
    ///
    /// Children are accepted only under a constructed tag and raw bytes only
    /// under a primitive one; `Value::Nothing` is accepted under any tag.
    /// The tree is well formed where the trees under it are.
    pub fn new(tag: Tag, value: Value) -> (res: Result<Tlv, TlvError>)
        ensures
            value@.fits(tag as nat) ==> res is Ok && res->Ok_0@ == (TlvView {
                tag: tag as nat,
                val: value@,
            }),
            value@.fits(tag as nat) && value@.well_formed() ==> res->Ok_0@.well_formed(),
            value is TlvList && is_primitive_tag(tag as nat) ==> res == Err::<Tlv, TlvError>(
                TlvError::ValExpected { tag_number: tag },
            ),
            value is Val && !is_primitive_tag(tag as nat) ==> res == Err::<Tlv, TlvError>(
                TlvError::TlvListExpected { tag_number: tag },
            ),
    {
        match value {
            Value::TlvList(_) => {
                if tag_is_primitive(tag) {
                    return Err(TlvError::ValExpected { tag_number: tag });
                }
            },
            Value::Val(_) => {
                if !tag_is_primitive(tag) {
                    return Err(TlvError::TlvListExpected { tag_number: tag });
                }
            },
            Value::Nothing => (),
        }
        Ok(Tlv { tag, val: value })
    }

    /// Returns the number of octets of the tag field.
    pub fn tag_len(&self) -> (len: usize)
        ensures
            len == tag_bytes(self@.tag).len(),
            1 <= len <= 8,
    {
        let mut tag = self.tag;
        let mut len: usize = 0;
        proof {
            lemma_be_bytes_len_usize(self.tag);
        }
        while tag != 0
            invariant
                len + be_bytes(tag as nat).len() == be_bytes(self.tag as nat).len(),
                be_bytes(self.tag as nat).len() <= 8,
            decreases tag,
        {
            assert(tag >> 8 == tag / 256) by (bit_vector);
            len += 1;
            tag >>= 8;
        }
        if len == 0 {
            len + 1
        } else {
            len
        }
    }

    /// Tells whether the tag is primitive.
    pub fn is_primitive(&self) -> (primitive: bool)
        ensures
            primitive == is_primitive_tag(self@.tag),
    {
        tag_is_primitive(self.tag)
    }

    /// Returns true if nothing stands under the tag.
    pub fn is_empty(&self) -> (empty: bool)
        ensures
            empty == self@.val.is_empty(),
    {
        self.val.is_empty()
    }

    /// Returns the size of the encoding in bytes.
    pub fn len(&self) -> (len: usize)
        ensures
            len == self@.encoding().len(),
        decreases self, 1int,
    {
        let body = self.val.len();
        let mut len_field: Vec<u8> = Vec::new();
        push_len_bytes(&mut len_field, body);
        proof {
            lemma_be_bytes_len_usize(body);
        }
        match body.checked_add(self.tag_len() + len_field.len()) {
            Some(len) => len,
            // a sum that does not fit is left to the encoding itself
            None => self.to_vec().len(),
        }
    }

    /// Returns the encoding: tag field, length field, value bytes. It has
    /// at least two bytes.
    pub fn to_vec(&self) -> (out: Vec<u8>)
        ensures
            out@ == self@.encoding(),
            out@.len() >= 2,
        decreases self, 1int,
    {
        proof {
            lemma_encoding_len(self@);
        }
        let mut body = self.val.to_vec();
        let mut out: Vec<u8> = Vec::new();
        push_tag_bytes(&mut out, self.tag);
        push_len_bytes(&mut out, body.len());
        out.append(&mut body);
        out
    }

    /// Returns the value that `path` leads to.
    ///
    /// A path is made of hexadecimal tag numbers with `/` between them, and
    /// white space anywhere. The first number names this node, each further
    /// one the first child of that number under the node before. Where
    /// `path` is no such path, or a step of it finds no node, the result is
    /// `None`.
    pub fn find_val(&self, path: &str) -> (res: Option<&Value>)
        ensures
            match res {
                Some(val) => self@.find(path@) == Some(val@),
                None => self@.find(path@) is None,
            },
    {
        let steps = match Tlv::get_path(path) {
            Ok(steps) => steps,
            Err(_) => {
                return None;
            },
        };
        if steps.is_empty() {
            return None;
        }
        if steps[0] != self.tag {
            return None;
        }
        let ghost tags = tag_numbers(steps@);
        let mut val = &self.val;
        let mut i: usize = 1;
        while i < steps.len()
            invariant
                1 <= i <= steps.len(),
                tags == tag_numbers(steps@),
                self@.find(path@) == self@.lookup(tags),
                self@.lookup(tags) == val@.descend(tags.skip(i as int)),
            decreases steps.len() - i,
        {
            proof {
                assert(tags.skip(i as int).drop_first() =~= tags.skip(i + 1));
            }
            match val {
                Value::TlvList(list) => {
                    proof {
                        lemma_view_of_list(*list);
                    }
                    match first_child(list, steps[i]) {
                        Some(child) => {
                            val = &child.val;
                        },
                        None => {
                            return None;
                        },
                    }
                },
                _ => {
                    return None;
                },
            }
            i += 1;
        }
        Some(val)
    }

    /// Reads the tag field that starts at `pos`: the tag number and the
    /// position after the field.
    fn read_tag(bytes: &[u8], pos: usize) -> (res: Result<(Tag, usize), TlvError>)
        requires
            pos <= bytes.len(),
        ensures
            match res {
                Ok((tag, next)) => pos < next <= bytes.len() && wire::read_tag(
                    bytes@.skip(pos as int),
                ) == Ok::<(nat, nat), TlvError>((tag as nat, (next - pos) as nat)),
                Err(e) => wire::read_tag(bytes@.skip(pos as int)) == Err::<(nat, nat), TlvError>(
                    e,
                ),
            },
    {
        let ghost s = bytes@.skip(pos as int);
        proof {
            reveal(wire::read_tag);
        }
        if pos >= bytes.len() {
            return Err(TlvError::TruncatedTlv);
        }
        let first = bytes[pos];
        let mut tag: usize = first as usize;
        let mut next: usize = pos + 1;
        proof {
            lemma_be_value_take(s, 0);
        }
        assert(first & 0x1f == 0x1f <==> is_long_form_octet(first)) by (bit_vector);
        if first & 0x1f == 0x1f {
            // long form: find the end
            let mut more = true;
            while more
                invariant
                    pos < next <= bytes.len(),
                    s == bytes@.skip(pos as int),
                    is_long_form_octet(s[0]),
                    tag == be_value(s.take(next - pos)),
                    more ==> first_final_octet(s, 1) == first_final_octet(s, next - pos),
                    !more ==> first_final_octet(s, 1) == next - pos - 1,
                decreases bytes.len() - next + (if more { 1int } else { 0int }),
            {
                let ghost i = next - pos;
                proof {
                    reveal(wire::read_tag);
                    lemma_first_final_octet(s, i);
                }
                if next >= bytes.len() {
                    proof {
                        assert(s.take(i) =~= s);
                    }
                    return Err(TlvError::TruncatedTlv);
                }
                let octet = bytes[next];
                proof {
                    let last = first_final_octet(s, 1);
                    let field = if last < s.len() {
                        s.take(last + 1)
                    } else {
                        s
                    };
                    lemma_be_value_take(s, i);
                    lemma_be_value_prefix(field, i + 1);
                    assert(field.take(i + 1) =~= s.take(i + 1));
                }
                let shifted = match tag.checked_mul(256) {
                    Some(shifted) => shifted,
                    None => {
                        return Err(TlvError::InvalidTagNumber);
                    },
                };
                tag = match shifted.checked_add(octet as usize) {
                    Some(tag) => tag,
                    None => {
                        return Err(TlvError::InvalidTagNumber);
                    },
                };
                next += 1;
                assert(octet & 0x80 != 0 <==> octet >= 0x80) by (bit_vector);
                more = octet & 0x80 != 0;
            }
        }
        if tag == 0 {
            return Err(TlvError::InvalidTagNumber);
        }
        Ok((tag, next))
    }

    /// Reads the length field that starts at `pos` and holds the length
    /// against what follows the field: the length and the position after
    /// the field.
    fn read_len(bytes: &[u8], pos: usize) -> (res: Result<(usize, usize), TlvError>)
        requires
            pos <= bytes.len(),
        ensures
            match res {
                Ok((len, next)) => pos < next && next + len <= bytes.len() && wire::read_len(
                    bytes@.skip(pos as int),
                ) == Ok::<(nat, nat), TlvError>((len as nat, (next - pos) as nat)),
                Err(e) => wire::read_len(bytes@.skip(pos as int)) == Err::<(nat, nat), TlvError>(
                    e,
                ),
            },
    {
        let ghost s = bytes@.skip(pos as int);
        proof {
            reveal(wire::read_len_field);
        }
        if pos >= bytes.len() {
            return Err(TlvError::TruncatedTlv);
        }
        let first = bytes[pos];
        let mut len: usize = first as usize;
        let mut next: usize = pos + 1;
        assert(first & 0x80 != 0 <==> first >= 0x80) by (bit_vector);
        if first & 0x80 != 0 {
            assert(first >= 0x80 ==> first & 0x7f == first - 0x80) by (bit_vector);
            let octet_num = (first & 0x7f) as usize;
            if octet_num == 0 {
                return Err(TlvError::InvalidLength);
            }
            len = 0;
            let mut read: usize = 0;
            let ghost digits = if 1 + octet_num <= s.len() {
                s.subrange(1, 1 + octet_num)
            } else {
                s.skip(1)
            };
            while read < octet_num
                invariant
                    read <= octet_num,
                    0 < octet_num == s[0] - 0x80,
                    s.len() > 0,
                    next == pos + 1 + read,
                    next <= bytes.len(),
                    s == bytes@.skip(pos as int),
                    digits == if 1 + octet_num <= s.len() {
                        s.subrange(1, 1 + octet_num)
                    } else {
                        s.skip(1)
                    },
                    len == be_value(digits.take(read as int)),
                decreases octet_num - read,
            {
                proof {
                    reveal(wire::read_len_field);
                }
                if next >= bytes.len() {
                    proof {
                        assert(digits.take(read as int) =~= digits);
                    }
                    return Err(TlvError::TruncatedTlv);
                }
                let octet = bytes[next];
                proof {
                    lemma_be_value_take(digits, read as int);
                    lemma_be_value_prefix(digits, read + 1);
                }
                let shifted = match len.checked_mul(256) {
                    Some(shifted) => shifted,
                    None => {
                        return Err(TlvError::InvalidLength);
                    },
                };
                len = match shifted.checked_add(octet as usize) {
                    Some(len) => len,
                    None => {
                        return Err(TlvError::InvalidLength);
                    },
                };
                next += 1;
                read += 1;
            }
            proof {
                assert(digits.take(read as int) =~= digits);
            }
        }
        let remain = bytes.len() - next;
        if remain < len {
            return Err(TlvError::TooShortBody { expected: len, found: remain });
        }
        Ok((len, next))
    }

    /// Decodes the node that starts at `pos`: the node and the position
    /// after it.
    fn decode_at(bytes: &[u8], pos: usize) -> (res: Result<(Tlv, usize), TlvError>)
        requires
            pos <= bytes.len(),
        ensures
            match res {
                Ok((tlv, next)) => {
                    &&& parse(bytes@.skip(pos as int)) == Ok::<TlvView, TlvError>(tlv@)
                    &&& read_header(bytes@.skip(pos as int)) is Ok
                    &&& next - pos == read_header(bytes@.skip(pos as int))->Ok_0.total()
                    &&& pos < next <= bytes.len()
                },
                Err(e) => parse(bytes@.skip(pos as int)) == Err::<TlvView, TlvError>(e),
            },
        decreases bytes.len() - pos, 0nat,
    {
        let ghost s = bytes@.skip(pos as int);
        let (tag, after_tag) = match Tlv::read_tag(bytes, pos) {
            Ok(read) => read,
            Err(e) => {
                return Err(e);
            },
        };
        proof {
            assert(bytes@.skip(after_tag as int) =~= s.skip(after_tag - pos));
        }
        let (len, start) = match Tlv::read_len(bytes, after_tag) {
            Ok(read) => read,
            Err(e) => {
                return Err(e);
            },
        };
        let end = start + len;
        let body = slice_subrange(bytes, start, end);
        proof {
            lemma_header_bounds(s);
            assert(body@ =~= s.subrange(start - pos, end - pos));
        }
        let val = if tag_is_primitive(tag) {
            Value::Val(slice_to_vec(body))
        } else {
            match Tlv::decode_list(body) {
                Ok(children) => {
                    proof {
                        lemma_view_of_list(children);
                    }
                    Value::TlvList(children)
                },
                Err(e) => {
                    return Err(e);
                },
            }
        };
        Ok((Tlv { tag, val }, end))
    }

    /// Decodes the nodes that fill `bytes`, one after the other.
    fn decode_list(bytes: &[u8]) -> (res: Result<Vec<Tlv>, TlvError>)
        ensures
            match res {
                Ok(list) => parse_list(bytes@) == Ok::<Seq<TlvView>, TlvError>(views_of(list@)),
                Err(e) => parse_list(bytes@) == Err::<Seq<TlvView>, TlvError>(e),
            },
        decreases bytes.len(), 1nat,
    {
        let mut children: Vec<Tlv> = Vec::new();
        let mut at: usize = 0;
        proof {
            assert(bytes@.skip(0) =~= bytes@);
            lemma_parse_list_step(Seq::empty(), bytes@);
        }
        while at < bytes.len()
            invariant
                at <= bytes.len(),
                parse_list(bytes@) == after(views_of(children@), parse_list(bytes@.skip(at as int))),
            decreases bytes.len() - at,
        {
            let ghost rest = bytes@.skip(at as int);
            let ghost before = views_of(children@);
            proof {
                lemma_parse_list_step(before, rest);
            }
            let (child, next) = match Tlv::decode_at(bytes, at) {
                Ok(read) => read,
                Err(e) => {
                    return Err(e);
                },
            };
            proof {
                assert(rest.skip(next - at) =~= bytes@.skip(next as int));
                assert(views_of(children@.push(child)) =~= before.push(child@));
            }
            children.push(child);
            at = next;
        }
        proof {
            lemma_parse_list_step(views_of(children@), bytes@.skip(at as int));
        }
        Ok(children)
    }

    /// Decodes the node at the front of `slice`. What follows the node is
    /// left aside.
    ///
    /// The tree that comes back holds under every tag a value that fits it,
    /// its tag numbers are such as decoding can give, and its encoding is no
    /// longer than `slice`.
    pub fn from_vec(slice: &[u8]) -> (res: Result<Tlv, TlvError>)
        ensures
            match res {
                Ok(tlv) => parse(slice@) == Ok::<TlvView, TlvError>(tlv@),
                Err(e) => parse(slice@) == Err::<TlvView, TlvError>(e),
            },
            res matches Ok(tlv) ==> tlv@.well_formed() && tlv@.has_tag_numbers()
                && tlv@.encoding().len() <= slice@.len(),
    {
        proof {
            assert(slice@.skip(0) =~= slice@);
            if parse(slice@) is Ok {
                lemma_parse_ok(slice@);
            }
        }
        match Tlv::decode_at(slice, 0) {
            Ok((tlv, _)) => Ok(tlv),
            Err(e) => Err(e),
        }
    }

    /// Returns the tag number.
    pub fn tag(&self) -> (tag: Tag)
        ensures
            tag == self@.tag,
    {
        self.tag
    }

    /// Returns what stands under the tag: never children under a primitive
    /// tag, nor raw bytes under a constructed one.
    pub fn val(&self) -> (val: &Value)
        ensures
            val@ == self@.val,
            val@.fits(self@.tag),
    {
        proof {
            use_type_invariant(self);
        }
        &self.val
    }
}

impl Value {
    /// Returns the size of the value bytes.
    pub(crate) fn len(&self) -> (len: usize)
        ensures
            len == self@.bytes().len(),
        decreases self, 0int,
    {
        match self {
            Value::TlvList(list) => {
                let mut sum: usize = 0;
                let mut i: usize = 0;
                while i < list.len()
                    invariant
                        i <= list.len(),
                        self@ matches ValueView::TlvList(views) && views.len() == list.len()
                            && (forall|k: int| 0 <= k < list.len() ==> views[k] == list[k]@)
                            && sum == encode_list(views.take(i as int)).len(),
                        self == Value::TlvList(*list),
                    decreases list.len() - i,
                {
                    proof {
                        lemma_encode_list_take(self@->TlvList_0, i as int);
                    }
                    sum = match sum.checked_add(list[i].len()) {
                        Some(sum) => sum,
                        // a sum that does not fit is left to the bytes themselves
                        None => {
                            return self.to_vec().len();
                        },
                    };
                    i += 1;
                }
                proof {
                    let views = self@->TlvList_0;
                    assert(views.take(i as int) =~= views);
                }
                sum
            },
            Value::Val(bytes) => bytes.len(),
            Value::Nothing => 0,
        }
    }

    /// Returns true if the value has no children, no bytes, or is `Nothing`.
    pub fn is_empty(&self) -> (empty: bool)
        ensures
            empty == self@.is_empty(),
    {
        match self {
            Value::TlvList(list) => list.is_empty(),
            Value::Val(bytes) => bytes.is_empty(),
            Value::Nothing => true,
        }
    }

    /// Returns the length field that stands for the size of the value bytes.
    ///
    /// Only the definite form is written.
    pub fn encode_len(&self) -> (out: Vec<u8>)
        ensures
            out@ == len_bytes(self@.bytes().len()),
        decreases self, 1int,
    {
        let len = self.len();
        let mut out: Vec<u8> = Vec::new();
        push_len_bytes(&mut out, len);
        out
    }

    /// Returns the value bytes: the children's encodings one after the other,
    /// the raw bytes, or nothing.
    pub fn to_vec(&self) -> (out: Vec<u8>)
        ensures
            out@ == self@.bytes(),
        decreases self, 0int,
    {
        match self {
            Value::TlvList(list) => {
                let mut out: Vec<u8> = Vec::new();
                let mut i: usize = 0;
                while i < list.len()
                    invariant
                        i <= list.len(),
                        self@ matches ValueView::TlvList(views) && views.len() == list.len()
                            && (forall|k: int| 0 <= k < list.len() ==> views[k] == list[k]@)
                            && out@ == encode_list(views.take(i as int)),
                        self == Value::TlvList(*list),
                    decreases list.len() - i,
                {
                    proof {
                        lemma_encode_list_take(self@->TlvList_0, i as int);
                    }
                    let mut child = list[i].to_vec();
                    out.append(&mut child);
                    i += 1;
                }
                proof {
                    let views = self@->TlvList_0;
                    assert(views.take(i as int) =~= views);
                }
                out
            },
            Value::Val(bytes) => slice_to_vec(bytes.as_slice()),
            Value::Nothing => Vec::new(),
        }
    }
}

} // verus!
