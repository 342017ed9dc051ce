//! The wire format, read from the front of a byte string.
//!
//! ```text
//! TLV   := TAG LEN VALUE
//! TAG   := one octet; if its low five bits are all ones, more octets
//!          follow, up to and including the first whose high bit is clear
//! LEN   := one octet; if its high bit is clear it is the length, else its
//!          low seven bits count the big-endian octets of the length that
//!          follow
//! VALUE := LEN raw bytes under a primitive tag, child TLVs that fill LEN
//!          bytes under a constructed one
//! ```
use vstd::prelude::*;
use crate::bytes::be_value;
use crate::model::{is_primitive_tag, TlvView, ValueView};
use crate::TlvError;

verus! {

/// Whether the low five bits of a tag's first octet are all ones, which
/// announces further tag octets.
pub open spec fn is_long_form_octet(b: u8) -> bool {
    b % 0x20 == 0x1f
}

/// The index of the first octet of `s` at or after `from` whose high bit is
/// clear, and `s.len()` where there is none.
pub open spec fn first_final_octet(s: Seq<u8>, from: int) -> int
    decreases s.len() - from,
{
    if from >= s.len() {
        s.len() as int
    } else if s[from] < 0x80 {
        from
    } else {
        first_final_octet(s, from + 1)
    }
}

/// The index of the last octet of the tag field at the front of `s`, and
/// `s.len()` where `s` ends before the field does.
pub open spec fn tag_last(s: Seq<u8>) -> int {
    if s.len() == 0 {
        0
    } else if is_long_form_octet(s[0]) {
        first_final_octet(s, 1)
    } else {
        0
    }
}

/// Reads the tag field at the front of `s`: the tag number and the number
/// of octets of the field.
///
/// The tag number is the big-endian value of the field's octets. It is
/// refused when it does not fit `usize`, even where `s` ends before the
/// field does, and when it is zero.
#[verifier::opaque]
pub open spec fn read_tag(s: Seq<u8>) -> Result<(nat, nat), TlvError> {
    let last = tag_last(s);
    let field = if last < s.len() {
        s.take(last + 1)
    } else {
        s
    };
    if be_value(field) > usize::MAX {
        Err(TlvError::InvalidTagNumber)
    } else if last >= s.len() {
        Err(TlvError::TruncatedTlv)
    } else if be_value(field) == 0 {
        Err(TlvError::InvalidTagNumber)
    } else {
        Ok((be_value(field), (last + 1) as nat))
    }
}

/// Reads the length field at the front of `s`: the length and the number of
/// octets of the field.
///
/// A first octet of `0x80`, which counts no octets, is refused. So is a
/// length that does not fit `usize`, even where `s` ends before the field
/// does.
#[verifier::opaque]
pub open spec fn read_len_field(s: Seq<u8>) -> Result<(nat, nat), TlvError> {
    if s.len() == 0 {
        Err(TlvError::TruncatedTlv)
    } else if s[0] < 0x80 {
        Ok((s[0] as nat, 1))
    } else if s[0] == 0x80 {
        Err(TlvError::InvalidLength)
    } else {
        let count = s[0] - 0x80;
        let digits = if 1 + count <= s.len() {
            s.subrange(1, 1 + count)
        } else {
            s.skip(1)
        };
        if be_value(digits) > usize::MAX {
            Err(TlvError::InvalidLength)
        } else if 1 + count > s.len() {
            Err(TlvError::TruncatedTlv)
        } else {
            Ok((be_value(digits), (1 + count) as nat))
        }
    }
}

/// Reads the length field at the front of `s` and holds the length against
/// what follows the field: the length and the number of octets of the field.
pub open spec fn read_len(s: Seq<u8>) -> Result<(nat, nat), TlvError> {
    match read_len_field(s) {
        Err(e) => Err(e),
        Ok((len, size)) => {
            let found = s.len() - size;
            if found < len {
                Err(TlvError::TooShortBody { expected: len as usize, found: found as usize })
            } else {
                Ok((len, size))
            }
        },
    }
}

/// The tag and length fields of a node.
pub struct Header {
    /// The tag number.
    pub tag: nat,
    /// The number of octets of the tag field.
    pub tag_size: nat,
    /// The number of value bytes.
    pub len: nat,
    /// The number of octets of the length field.
    pub len_size: nat,
}

impl Header {
    /// The number of octets of the two fields together.
    pub open spec fn size(self) -> nat {
        self.tag_size + self.len_size
    }

    /// The number of octets of the whole node.
    pub open spec fn total(self) -> nat {
        self.size() + self.len
    }
}

/// Reads the tag and length fields at the front of `s`.
pub open spec fn read_header(s: Seq<u8>) -> Result<Header, TlvError> {
    match read_tag(s) {
        Err(e) => Err(e),
        Ok((tag, tag_size)) => match read_len(s.skip(tag_size as int)) {
            Err(e) => Err(e),
            Ok((len, len_size)) => Ok(Header { tag, tag_size, len, len_size }),
        },
    }
}

/// The scan for the final octet of a tag field never goes backwards, and
/// every octet that it passes has its high bit set.
pub proof fn lemma_first_final_octet(s: Seq<u8>, from: int)
    requires
        0 <= from <= s.len(),
    ensures
        from <= first_final_octet(s, from) <= s.len(),
        first_final_octet(s, from) < s.len() ==> s[first_final_octet(s, from)] < 0x80,
        forall|i: int| from <= i < first_final_octet(s, from) ==> s[i] >= 0x80,
    decreases s.len() - from,
{
    if from < s.len() && s[from] >= 0x80 {
        lemma_first_final_octet(s, from + 1);
    }
}

/// A header that was read has at least two octets, fits its input together
/// with its value bytes, and holds a tag number and a length that fit
/// `usize`, the tag number not zero.
pub proof fn lemma_header_bounds(s: Seq<u8>)
    requires
        read_header(s) is Ok,
    ensures
        2 <= read_header(s)->Ok_0.size(),
        read_header(s)->Ok_0.total() <= s.len(),
        0 < read_header(s)->Ok_0.tag <= usize::MAX,
        read_header(s)->Ok_0.len <= usize::MAX,
{
    reveal(read_tag);
    reveal(read_len_field);
    if s.len() > 0 && is_long_form_octet(s[0]) {
        lemma_first_final_octet(s, 1);
    }
}

/// Decodes the node at the front of `s`. What follows the node in `s` is
/// left aside.
///
/// Under a primitive tag the value is the raw bytes, under a constructed
/// one the nodes that [`parse_list`] finds in the value bytes.
pub open spec fn parse(s: Seq<u8>) -> Result<TlvView, TlvError>
    decreases s.len(), 0nat,
{
    match read_header(s) {
        Err(e) => Err(e),
        Ok(h) => {
            let body = s.subrange(h.size() as int, h.total() as int);
            if is_primitive_tag(h.tag) {
                Ok(TlvView { tag: h.tag, val: ValueView::Val(body) })
            } else {
                proof {
                    lemma_header_bounds(s);
                }
                match parse_list(body) {
                    Err(e) => Err(e),
                    Ok(list) => Ok(TlvView { tag: h.tag, val: ValueView::TlvList(list) }),
                }
            }
        },
    }
}

/// Decodes the nodes that fill `s`, one after the other, and stops at the
/// first that fails.
pub open spec fn parse_list(s: Seq<u8>) -> Result<Seq<TlvView>, TlvError>
    decreases s.len(), 1nat,
{
    if s.len() == 0 {
        Ok(Seq::empty())
    } else {
        match read_header(s) {
            Err(e) => Err(e),
            Ok(h) => match parse(s) {
                Err(e) => Err(e),
                Ok(first) => {
                    proof {
                        lemma_header_bounds(s);
                    }
                    match parse_list(s.skip(h.total() as int)) {
                        Err(e) => Err(e),
                        Ok(rest) => Ok(seq![first] + rest),
                    }
                },
            },
        }
    }
}

/// The nodes `front`, followed by what `rest` holds where it holds nodes.
pub open spec fn after(front: Seq<TlvView>, rest: Result<Seq<TlvView>, TlvError>) -> Result<
    Seq<TlvView>,
    TlvError,
> {
    match rest {
        Ok(nodes) => Ok(front + nodes),
        Err(e) => Err(e),
    }
}

/// One step of [`parse_list`], after the nodes `front`: nothing is added
/// where `s` is empty, the step fails as the first node of `s` fails, and
/// else adds that node and goes on behind it.
pub proof fn lemma_parse_list_step(front: Seq<TlvView>, s: Seq<u8>)
    ensures
        s.len() == 0 ==> after(front, parse_list(s)) == Ok::<Seq<TlvView>, TlvError>(front),
        s.len() > 0 && parse(s) is Err ==> after(front, parse_list(s)) == Err::<
            Seq<TlvView>,
            TlvError,
        >(parse(s)->Err_0),
        s.len() > 0 && parse(s) is Ok ==> read_header(s) is Ok && after(front, parse_list(s))
            == after(
            front.push(parse(s)->Ok_0),
            parse_list(s.skip(read_header(s)->Ok_0.total() as int)),
        ),
{
    if s.len() > 0 && parse(s) is Ok {
        let tail = parse_list(s.skip(read_header(s)->Ok_0.total() as int));
        if tail is Ok {
            assert(front + (seq![parse(s)->Ok_0] + tail->Ok_0) =~= front.push(parse(s)->Ok_0)
                + tail->Ok_0);
        }
    }
}

} // verus!
