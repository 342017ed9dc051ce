//! Dumps of TLV data that was written down in hexadecimal digits.
use vstd::prelude::*;
use vstd::slice::slice_subrange;
use vstd::string::StringExecFns;
use hex::{FromHex, FromHexError};
use crate::model::{lemma_encoding_len, TlvView, ValueView};
use crate::round_trip::lemma_parse_ok;
use crate::text::{hex_pair_text, push_hex_pair, push_spaces, spaces};
use crate::tlv::{lemma_view_of_list, views_of, Tlv, Value};
use crate::wire::parse;

verus! {

/// Why bytes are not the hexadecimal digits of a byte string.
#[derive(Debug, Clone, Copy, PartialEq, Eq, Structural)]
pub enum HexError {
    /// The byte at `index` is no hexadecimal digit; `c` is the byte as a
    /// character.
    InvalidHexCharacter { c: char, index: usize },
    /// The number of digits is odd.
    OddLength,
    /// The number of digits does not match a container of fixed size.
    InvalidStringLength,
}

/// The value of a byte that is a hexadecimal digit of ASCII, in either
/// case.
pub open spec fn hex_nibble(b: u8) -> Option<u8> {
    if 0x30 <= b <= 0x39 {
        Some((b - 0x30) as u8)
    } else if 0x41 <= b <= 0x46 {
        Some((b - 0x41 + 10) as u8)
    } else if 0x61 <= b <= 0x66 {
        Some((b - 0x61 + 10) as u8)
    } else {
        None
    }
}

/// The index of the first byte of `s` at or after `from` that is no
/// hexadecimal digit, and `s.len()` where there is none.
pub open spec fn first_non_digit(s: Seq<u8>, from: int) -> int
    decreases s.len() - from,
{
    if from >= s.len() {
        s.len() as int
    } else if hex_nibble(s[from]) is None {
        from
    } else {
        first_non_digit(s, from + 1)
    }
}

/// The bytes that the hexadecimal digits `s` spell, two digits to a byte,
/// the first of the two for the high half.
///
/// An odd number of digits is refused first, then the first byte that is
/// no digit.
pub open spec fn hex_decode(s: Seq<u8>) -> Result<Seq<u8>, HexError> {
    if s.len() % 2 != 0 {
        Err(HexError::OddLength)
    } else if first_non_digit(s, 0) < s.len() {
        Err(
            HexError::InvalidHexCharacter {
                c: s[first_non_digit(s, 0)] as char,
                index: first_non_digit(s, 0) as usize,
            },
        )
    } else {
        Ok(
            Seq::new(
                s.len() / 2,
                |i: int|
                    (hex_nibble(s[2 * i])->Some_0 * 16 + hex_nibble(s[2 * i + 1])->Some_0) as u8,
            ),
        )
    }
}

/// Decodes hexadecimal digits with `FromHex::from_hex` of the crate `hex`,
/// as it is implemented for `Vec<u8>`.
///
/// The contract says what that function's source shows: it refuses an odd
/// number of bytes, then goes through the pairs in order and refuses the
/// first byte that is none of `0-9`, `a-f`, `A-F`, naming the byte and its
/// index; else each pair gives one byte, sixteen times the first digit plus
/// the second.
#[verifier::external_body]
fn from_hex(digits: &[u8]) -> (res: Result<Vec<u8>, HexError>)
    ensures
        match res {
            Ok(bytes) => hex_decode(digits@) == Ok::<Seq<u8>, HexError>(bytes@),
            Err(e) => hex_decode(digits@) == Err::<Seq<u8>, HexError>(e),
        },
{
    match Vec::<u8>::from_hex(digits) {
        Ok(bytes) => Ok(bytes),
        Err(FromHexError::InvalidHexCharacter { c, index }) => Err(
            HexError::InvalidHexCharacter { c, index },
        ),
        Err(FromHexError::OddLength) => Err(HexError::OddLength),
        Err(FromHexError::InvalidStringLength) => Err(HexError::InvalidStringLength),
    }
}

/// The outlines of the nodes of `list`, one after the other.
pub open spec fn outline_list(list: Seq<TlvView>, indent: nat) -> Seq<char>
    decreases list,
{
    if list.len() == 0 {
        Seq::empty()
    } else {
        list.first().outline(indent) + outline_list(list.drop_first(), indent)
    }
}

impl TlvView {
    /// The tree as an outline, each node on a line of its own behind
    /// `indent` spaces, and two more for each level below.
    ///
    /// A node with children shows `tag=` and its tag number in hexadecimal,
    /// a node with raw bytes shows what [`TlvView::text`] gives, and a node
    /// with nothing shows the spaces and ends no line.
    pub open spec fn outline(self, indent: nat) -> Seq<char>
        decreases self,
    {
        spaces(indent) + match self.val {
            ValueView::TlvList(list) => "tag="@ + hex_pair_text(self.tag) + seq!['\n']
                + outline_list(list, indent + 2),
            ValueView::Val(_) => self.text() + seq!['\n'],
            ValueView::Nothing => Seq::empty(),
        }
    }
}

/// The bytes of `s` that are no line feed.
pub open spec fn without_line_feeds(s: Seq<u8>) -> Seq<u8> {
    s.filter(|b: u8| b != 0x0a)
}

/// The dump of `bytes`: the outline of each node that decodes, one behind
/// the other with an empty line after each, up to the end of `bytes` or to
/// the first node that does not decode, whose error makes the last line.
///
/// The next node is looked for as many bytes further as the encoding of
/// the node before it is long.
#[verifier::opaque]
pub open spec fn dump_text(bytes: Seq<u8>) -> Seq<char>
    decreases bytes.len(),
{
    if bytes.len() == 0 {
        Seq::empty()
    } else {
        match parse(bytes) {
            Ok(node) => {
                proof {
                    lemma_parse_ok(bytes);
                    lemma_encoding_len(node);
                }
                node.outline(0) + seq!['\n'] + dump_text(bytes.skip(node.encoding().len() as int))
            },
            Err(e) => "Error: "@ + e.text() + seq!['\n'],
        }
    }
}

/// One step of [`dump_text`] on bytes that are not empty: the line of the
/// error where the first node does not decode, else that node's outline, an
/// empty line, and the dump of what stands behind its encoding's length.
pub proof fn lemma_dump_text_step(bytes: Seq<u8>)
    requires
        bytes.len() > 0,
    ensures
        parse(bytes) is Err ==> dump_text(bytes) == "Error: "@ + parse(bytes)->Err_0.text()
            + seq!['\n'],
        parse(bytes) is Ok ==> 0 < parse(bytes)->Ok_0.encoding().len() <= bytes.len()
            && dump_text(bytes) == parse(bytes)->Ok_0.outline(0) + seq!['\n'] + dump_text(
            bytes.skip(parse(bytes)->Ok_0.encoding().len() as int),
        ),
{
    reveal(dump_text);
    if parse(bytes) is Ok {
        lemma_parse_ok(bytes);
        lemma_encoding_len(parse(bytes)->Ok_0);
    }
}

/// The outline of one more node after the outlines of a list, and of the
/// whole list.
pub proof fn lemma_outline_list_take(list: Seq<TlvView>, indent: nat, i: int)
    requires
        0 <= i < list.len(),
    ensures
        outline_list(list.take(i + 1), indent) == outline_list(list.take(i), indent)
            + list[i].outline(indent),
        outline_list(list.take(list.len() as int), indent) == outline_list(list, indent),
    decreases i,
{
    assert(list.take(list.len() as int) =~= list);
    let upto = list.take(i + 1);
    if i == 0 {
        assert(outline_list(upto.drop_first(), indent) =~= Seq::<char>::empty());
    } else {
        let others = list.drop_first();
        lemma_outline_list_take(others, indent, i - 1);
        assert(upto.drop_first() =~= others.take(i));
        assert(list.take(i).drop_first() =~= others.take(i - 1));
    }
}

/// Appends the outlines of the nodes of `list` behind the margin `margin`,
/// which is made of spaces.
fn push_outline_list(list: &Vec<Tlv>, out: &mut String, margin: &str)
    requires
        margin@ == spaces(margin@.len()),
    ensures
        final(out)@ == old(out)@ + outline_list(views_of(list@), margin@.len()),
    decreases views_of(list@), 0nat,
{
    let ghost views = views_of(list@);
    let ghost indent = margin@.len();
    let mut i: usize = 0;
    while i < list.len()
        invariant
            i <= list.len(),
            views == views_of(list@),
            indent == margin@.len(),
            margin@ == spaces(indent),
            out@ == old(out)@ + outline_list(views.take(i as int), indent),
        decreases list.len() - i,
    {
        proof {
            lemma_outline_list_take(views, indent, i as int);
        }
        list[i].push_outline(out, margin);
        i += 1;
    }
    proof {
        if views.len() > 0 {
            lemma_outline_list_take(views, indent, 0);
        }
    }
}

impl Tlv {
    /// Appends the tree as an outline behind the margin `margin`, which is
    /// made of spaces.
    fn push_outline(&self, out: &mut String, margin: &str)
        requires
            margin@ == spaces(margin@.len()),
        ensures
            final(out)@ == old(out)@ + self@.outline(margin@.len()),
        decreases self@, 1nat,
    {
        out.append(margin);
        match self.val() {
            Value::TlvList(list) => {
                out.append("tag=");
                push_hex_pair(out, self.tag());
                out.push('\n');
                let mut inner = String::from_str(margin);
                inner.append("  ");
                proof {
                    reveal_strlit("  ");
                    assert(inner@ =~= spaces(margin@.len() + 2));
                    lemma_view_of_list(*list);
                }
                push_outline_list(list, out, inner.as_str());
            },
            Value::Val(_) => {
                self.push_text(out);
                out.push('\n');
            },
            Value::Nothing => {},
        }
    }

    /// Returns the tree as an outline: each node on a line of its own
    /// behind `indent` spaces, and two more for each level below.
    pub fn outline(&self, indent: usize) -> (text: String)
        ensures
            text@ == self@.outline(indent as nat),
    {
        let mut margin = String::new();
        push_spaces(&mut margin, indent);
        let mut out = String::new();
        self.push_outline(&mut out, margin.as_str());
        out
    }
}

/// Returns the bytes of `input` that are no line feed.
fn strip_line_feeds(input: &[u8]) -> (out: Vec<u8>)
    ensures
        out@ == without_line_feeds(input@),
{
    let mut out: Vec<u8> = Vec::new();
    let mut i: usize = 0;
    proof {
        reveal(Seq::filter);
    }
    while i < input.len()
        invariant
            i <= input.len(),
            out@ == without_line_feeds(input@.take(i as int)),
        decreases input.len() - i,
    {
        proof {
            reveal(Seq::filter);
            assert(input@.take(i + 1).drop_last() =~= input@.take(i as int));
        }
        if input[i] != 0x0a {
            out.push(input[i]);
        }
        i += 1;
    }
    proof {
        assert(input@.take(i as int) =~= input@);
    }
    out
}

/// Decodes the nodes that stand one behind the other in `bytes` and
/// returns their outlines, with an empty line after each; where a node does
/// not decode, the dump ends with a line that says why.
pub fn dump(bytes: &[u8]) -> (text: String)
    ensures
        text@ == dump_text(bytes@),
{
    let mut out = String::new();
    let mut idx: usize = 0;
    proof {
        assert(bytes@.skip(0) =~= bytes@);
    }
    while idx < bytes.len()
        invariant
            idx <= bytes.len(),
            dump_text(bytes@) == out@ + dump_text(bytes@.skip(idx as int)),
        decreases bytes.len() - idx,
    {
        let rest = slice_subrange(bytes, idx, bytes.len());
        proof {
            lemma_dump_text_step(rest@);
        }
        match Tlv::from_vec(rest) {
            Ok(tlv) => {
                proof {
                    assert(""@ =~= spaces(0)) by {
                        reveal_strlit("");
                    }
                }
                tlv.push_outline(&mut out, "");
                out.push('\n');
                let used = tlv.len();
                proof {
                    assert(rest@.skip(used as int) =~= bytes@.skip(idx + used));
                }
                idx += used;
            },
            Err(err) => {
                out.append("Error: ");
                let why = err.to_string();
                out.append(why.as_str());
                out.push('\n');
                return out;
            },
        }
    }
    proof {
        reveal(dump_text);
    }
    out
}

/// Reads `input` as hexadecimal digits, line feeds left aside, and returns
/// the dump of the bytes that the digits spell.
pub fn dump_hex(input: &[u8]) -> (res: Result<String, HexError>)
    ensures
        match hex_decode(without_line_feeds(input@)) {
            Ok(bytes) => res is Ok && res->Ok_0@ == dump_text(bytes),
            Err(e) => res == Err::<String, HexError>(e),
        },
{
    let digits = strip_line_feeds(input);
    match from_hex(digits.as_slice()) {
        Ok(bytes) => Ok(dump(bytes.as_slice())),
        Err(e) => Err(e),
    }
}

} // verus!
