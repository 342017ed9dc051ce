//! The mathematical model of a TLV tree and of its encoding.
use vstd::prelude::*;
use crate::bytes::{be_bytes, lemma_be_bytes_leading};

verus! {

/// What a node holds, as a mathematical value.
pub enum ValueView {
    /// The children of a constructed node, in order.
    TlvList(Seq<TlvView>),
    /// The raw bytes of a primitive node.
    Val(Seq<u8>),
    /// No content.
    Nothing,
}

/// A node of a TLV tree, as a mathematical value.
pub struct TlvView {
    /// The tag number.
    pub tag: nat,
    /// What stands under the tag.
    pub val: ValueView,
}

/// Whether bit `0x20` of a tag's first octet is set, which marks a
/// constructed encoding.
pub open spec fn is_constructed_octet(b: u8) -> bool {
    (b / 0x20) % 2 == 1
}

/// The tag field that stands for `tag`: its shortest big-endian spelling,
/// and one zero byte for zero.
pub open spec fn tag_bytes(tag: nat) -> Seq<u8> {
    if tag == 0 {
        seq![0u8]
    } else {
        be_bytes(tag)
    }
}

/// A tag is primitive when bit `0x20` of the first octet of its tag field is
/// clear, and constructed when it is set.
pub open spec fn is_primitive_tag(tag: nat) -> bool {
    !is_constructed_octet(tag_bytes(tag)[0])
}

/// The definite-form length field that stands for `len`: the length itself
/// in one octet up to 127, else `0x80 | n` followed by the `n` octets of the
/// shortest big-endian spelling of the length.
pub open spec fn len_bytes(len: nat) -> Seq<u8> {
    if len < 0x80 {
        seq![len as u8]
    } else {
        seq![(0x80 + be_bytes(len).len()) as u8] + be_bytes(len)
    }
}

/// The encodings of the nodes of `list`, one after the other.
pub open spec fn encode_list(list: Seq<TlvView>) -> Seq<u8>
    decreases list,
{
    if list.len() == 0 {
        Seq::empty()
    } else {
        list.first().encoding() + encode_list(list.drop_first())
    }
}

/// An encoding has at least one octet for the tag and one for the length.
pub proof fn lemma_encoding_len(node: TlvView)
    ensures
        node.encoding().len() >= 2 + node.val.bytes().len(),
{
    if node.tag > 0 {
        lemma_be_bytes_leading(node.tag);
    }
}

/// Encoding a list that is made of two parts gives the two parts' encodings
/// one after the other.
pub proof fn lemma_encode_list_concat(a: Seq<TlvView>, b: Seq<TlvView>)
    ensures
        encode_list(a + b) == encode_list(a) + encode_list(b),
    decreases a.len(),
{
    if a.len() > 0 {
        lemma_encode_list_concat(a.drop_first(), b);
        assert((a + b).drop_first() =~= a.drop_first() + b);
    }
}

/// Encoding a list with one more node at its end appends that node's
/// encoding.
pub proof fn lemma_encode_list_push(list: Seq<TlvView>, node: TlvView)
    ensures
        encode_list(list.push(node)) == encode_list(list) + node.encoding(),
{
    let single = seq![node];
    assert(encode_list(single) == node.encoding()) by {
        assert(encode_list(single.drop_first()) =~= Seq::<u8>::empty());
    }
    lemma_encode_list_concat(list, single);
    assert(list.push(node) =~= list + single);
}

/// The encoding of a list starts with the encoding of each of its prefixes.
pub proof fn lemma_encode_list_take(list: Seq<TlvView>, i: int)
    requires
        0 <= i < list.len(),
    ensures
        encode_list(list.take(i + 1)) == encode_list(list.take(i)) + list[i].encoding(),
        encode_list(list) == encode_list(list.take(i + 1)) + encode_list(list.skip(i + 1)),
{
    lemma_encode_list_push(list.take(i), list[i]);
    assert(list.take(i + 1) =~= list.take(i).push(list[i]));
    lemma_encode_list_concat(list.take(i + 1), list.skip(i + 1));
    assert(list =~= list.take(i + 1) + list.skip(i + 1));
}

impl ValueView {
    /// The value bytes: the children's encodings, the raw bytes, or nothing.
    pub open spec fn bytes(self) -> Seq<u8>
        decreases self,
    {
        match self {
            ValueView::TlvList(list) => encode_list(list),
            ValueView::Val(bytes) => bytes,
            ValueView::Nothing => Seq::empty(),
        }
    }

    /// A value is empty when it has no children, no bytes, or is `Nothing`.
    pub open spec fn is_empty(self) -> bool {
        match self {
            ValueView::TlvList(list) => list.len() == 0,
            ValueView::Val(bytes) => bytes.len() == 0,
            ValueView::Nothing => true,
        }
    }

    /// Whether this value may stand under `tag`: children only under a
    /// constructed tag, raw bytes only under a primitive one.
    pub open spec fn fits(self, tag: nat) -> bool {
        match self {
            ValueView::TlvList(_) => !is_primitive_tag(tag),
            ValueView::Val(_) => is_primitive_tag(tag),
            ValueView::Nothing => true,
        }
    }
}

impl TlvView {
    /// The encoding of the node: tag field, length field, value bytes.
    pub open spec fn encoding(self) -> Seq<u8>
        decreases self,
    {
        tag_bytes(self.tag) + len_bytes(self.val.bytes().len()) + self.val.bytes()
    }

    /// Every node of the tree holds a value that fits its tag.
    pub open spec fn well_formed(self) -> bool
        decreases self,
    {
        &&& self.val.fits(self.tag)
        &&& self.val matches ValueView::TlvList(list) ==> forall|i: int|
            0 <= i < list.len() ==> (#[trigger] list[i]).well_formed()
    }
}

impl ValueView {
    /// Every node under this value holds a value that fits its tag.
    pub open spec fn well_formed(self) -> bool {
        self matches ValueView::TlvList(list) ==> forall|i: int|
            0 <= i < list.len() ==> (#[trigger] list[i]).well_formed()
    }
}

} // verus!
