//! Trees and errors as text for people to read.
use vstd::prelude::*;
use vstd::string::StringExecFns;
use crate::model::{tag_bytes, TlvView, ValueView};
use crate::tlv::{lemma_view_of_list, views_of, Tlv, Value};
use crate::TlvError;

verus! {

/// `String::push` of the standard library appends one character. The
/// library takes this to give the string's characters followed by `ch`.
pub assume_specification[ String::push ](s: &mut String, ch: char)
    ensures
        final(s)@ == old(s)@.push(ch),
;

/// The character of a digit below sixteen, with capital letters from ten on.
pub open spec fn digit_char(d: nat) -> char {
    if d < 10 {
        (0x30 + d) as u8 as char
    } else {
        (0x41 + d - 10) as u8 as char
    }
}

/// `n` in hexadecimal digits, capital letters, without leading zeros.
pub open spec fn hex_text(n: nat) -> Seq<char>
    decreases n,
{
    if n < 16 {
        seq![digit_char(n)]
    } else {
        hex_text(n / 16).push(digit_char(n % 16))
    }
}

/// `n` in at least two hexadecimal digits, capital letters.
pub open spec fn hex_pair_text(n: nat) -> Seq<char> {
    if n < 16 {
        seq!['0', digit_char(n)]
    } else {
        hex_text(n)
    }
}

/// `n` in decimal digits, without leading zeros.
pub open spec fn decimal_text(n: nat) -> Seq<char>
    decreases n,
{
    if n < 10 {
        seq![digit_char(n)]
    } else {
        decimal_text(n / 10).push(digit_char(n % 10))
    }
}

/// `n` spaces.
pub open spec fn spaces(n: nat) -> Seq<char> {
    Seq::new(n, |i: int| ' ')
}

/// A byte as a character of ASCII that can be printed, and a dot for any
/// other byte.
pub open spec fn printable(b: u8) -> char {
    if 0x20 <= b < 0x7f {
        b as char
    } else {
        '.'
    }
}

/// Each byte of `bytes` in two hexadecimal digits.
pub open spec fn hex_bytes_text(bytes: Seq<u8>) -> Seq<char>
    decreases bytes.len(),
{
    if bytes.len() == 0 {
        Seq::empty()
    } else {
        hex_bytes_text(bytes.drop_last()) + hex_pair_text(bytes.last() as nat)
    }
}

/// Each byte of `bytes` as [`printable`] gives it.
pub open spec fn printable_text(bytes: Seq<u8>) -> Seq<char> {
    bytes.map_values(|b: u8| printable(b))
}

/// The text of each node of `list`, each followed by a line feed.
pub open spec fn lines_text(list: Seq<TlvView>) -> Seq<char>
    decreases list,
{
    if list.len() == 0 {
        Seq::empty()
    } else {
        list.first().text() + seq!['\n'] + lines_text(list.drop_first())
    }
}

/// The number of spaces that fill `used` characters up to `width`.
pub open spec fn padding(width: nat, used: nat) -> nat {
    if used < width {
        (width - used) as nat
    } else {
        0
    }
}

impl ValueView {
    /// The value as text: one line for each child; `val=`, the bytes in
    /// hexadecimal, a space and the bytes as characters; `()` for nothing.
    pub open spec fn text(self) -> Seq<char>
        decreases self,
    {
        match self {
            ValueView::TlvList(list) => lines_text(list),
            ValueView::Val(bytes) => "val="@ + hex_bytes_text(bytes) + seq![' ']
                + printable_text(bytes),
            ValueView::Nothing => "()"@,
        }
    }
}

impl TlvView {
    /// The start of the node's text: `tag=`, the tag number in hexadecimal
    /// and a comma, filled up to twelve characters as if each octet of the
    /// tag field took two digits; `len=`, the number of value bytes in
    /// decimal and a comma, filled up to ten characters where the value is
    /// raw bytes.
    pub open spec fn head_text(self) -> Seq<char> {
        let size = decimal_text(self.val.bytes().len());
        "tag="@ + hex_pair_text(self.tag) + seq![','] + spaces(
            padding(12, tag_bytes(self.tag).len() * 2 + 5),
        ) + "len="@ + size + seq![','] + (if self.val is Val {
            spaces(padding(10, size.len() + 5))
        } else {
            Seq::empty()
        })
    }

    /// The node as text: the start as [`TlvView::head_text`] gives it, then
    /// the value.
    pub open spec fn text(self) -> Seq<char>
        decreases self,
    {
        self.head_text() + self.val.text()
    }
}

impl TlvError {
    /// What the error says, in words.
    pub open spec fn text(self) -> Seq<char> {
        match self {
            TlvError::TruncatedTlv => "Too short input vector"@,
            TlvError::InvalidLength => "Invalid length value\n"@,
            TlvError::InvalidTagNumber => "Invalid tag number"@,
            TlvError::TooShortBody { expected, found } => "Too short body: expected "@
                + decimal_text(expected as nat) + ", found "@ + decimal_text(found as nat),
            TlvError::ValExpected { tag_number } =>
                "Tag number defines primitive TLV, but value is not Value::Val: "@ + decimal_text(
                    tag_number as nat,
                ),
            TlvError::TlvListExpected { tag_number } =>
                "Tag number defines constructed TLV, but value is not Value::TlvList: "@
                    + decimal_text(tag_number as nat),
            TlvError::TagPathError => "Provided 'tag-path' has error"@,
        }
    }
}

/// The text of one more node after the text of a list, and of the whole list.
pub proof fn lemma_lines_text_take(list: Seq<TlvView>, i: int)
    requires
        0 <= i < list.len(),
    ensures
        lines_text(list.take(i + 1)) == lines_text(list.take(i)) + list[i].text() + seq!['\n'],
        lines_text(list.take(list.len() as int)) == lines_text(list),
    decreases i,
{
    assert(list.take(list.len() as int) =~= list);
    let upto = list.take(i + 1);
    if i == 0 {
        assert(lines_text(upto.drop_first()) =~= Seq::<char>::empty());
    } else {
        let others = list.drop_first();
        lemma_lines_text_take(others, i - 1);
        assert(upto.drop_first() =~= others.take(i));
        assert(list.take(i).drop_first() =~= others.take(i - 1));
    }
}

/// Returns the character of a digit below sixteen.
fn digit_to_char(d: u8) -> (c: char)
    requires
        d < 16,
    ensures
        c == digit_char(d as nat),
{
    if d < 10 {
        (0x30 + d) as char
    } else {
        (0x41 + d - 10) as char
    }
}

/// Appends `n` in hexadecimal digits.
fn push_hex(out: &mut String, n: usize)
    ensures
        final(out)@ == old(out)@ + hex_text(n as nat),
    decreases n,
{
    if n >= 16 {
        push_hex(out, n / 16);
    }
    out.push(digit_to_char((n % 16) as u8));
}

/// Appends `n` in at least two hexadecimal digits.
pub(crate) fn push_hex_pair(out: &mut String, n: usize)
    ensures
        final(out)@ == old(out)@ + hex_pair_text(n as nat),
{
    if n < 16 {
        out.push('0');
    }
    push_hex(out, n);
}

/// Appends `n` in decimal digits and returns their number.
fn push_decimal(out: &mut String, n: usize) -> (digits: usize)
    ensures
        final(out)@ == old(out)@ + decimal_text(n as nat),
        digits == decimal_text(n as nat).len(),
        digits <= n + 1,
    decreases n,
{
    let mut digits: usize = 1;
    if n >= 10 {
        digits = push_decimal(out, n / 10) + 1;
    }
    out.push(digit_to_char((n % 10) as u8));
    digits
}

/// Appends `n` spaces.
pub(crate) fn push_spaces(out: &mut String, n: usize)
    ensures
        final(out)@ == old(out)@ + spaces(n as nat),
{
    let mut i: usize = 0;
    while i < n
        invariant
            i <= n,
            out@ == old(out)@ + spaces(i as nat),
        decreases n - i,
    {
        out.push(' ');
        i += 1;
    }
}

/// Appends as many spaces as fill `used` characters up to `width`.
fn push_padding(out: &mut String, width: usize, used: usize)
    ensures
        final(out)@ == old(out)@ + spaces(padding(width as nat, used as nat)),
{
    if used < width {
        push_spaces(out, width - used);
    }
}

impl TlvError {
    /// Returns what the error says, in words.
    pub fn to_string(&self) -> (text: String)
        ensures
            text@ == self.text(),
    {
        let mut out = String::new();
        match self {
            TlvError::TruncatedTlv => {
                out.append("Too short input vector");
            },
            TlvError::InvalidLength => {
                out.append("Invalid length value\n");
            },
            TlvError::InvalidTagNumber => {
                out.append("Invalid tag number");
            },
            TlvError::TooShortBody { expected, found } => {
                out.append("Too short body: expected ");
                push_decimal(&mut out, *expected);
                out.append(", found ");
                push_decimal(&mut out, *found);
            },
            TlvError::ValExpected { tag_number } => {
                out.append("Tag number defines primitive TLV, but value is not Value::Val: ");
                push_decimal(&mut out, *tag_number);
            },
            TlvError::TlvListExpected { tag_number } => {
                out.append(
                    "Tag number defines constructed TLV, but value is not Value::TlvList: ",
                );
                push_decimal(&mut out, *tag_number);
            },
            TlvError::TagPathError => {
                out.append("Provided 'tag-path' has error");
            },
        }
        out
    }
}

impl Value {
    /// Appends the value as text.
    fn push_text(&self, out: &mut String)
        ensures
            final(out)@ == old(out)@ + self@.text(),
        decreases self@, 0nat,
    {
        match self {
            Value::TlvList(list) => {
                let ghost views = views_of(list@);
                proof {
                    lemma_view_of_list(*list);
                }
                let mut i: usize = 0;
                while i < list.len()
                    invariant
                        i <= list.len(),
                        views == views_of(list@),
                        self@ == ValueView::TlvList(views),
                        out@ == old(out)@ + lines_text(views.take(i as int)),
                    decreases list.len() - i,
                {
                    proof {
                        lemma_lines_text_take(views, i as int);
                    }
                    assert(decreases_to!(self@ => self@->TlvList_0));
                    list[i].push_text(out);
                    out.push('\n');
                    i += 1;
                }
                proof {
                    if views.len() > 0 {
                        lemma_lines_text_take(views, 0);
                    }
                }
            },
            Value::Val(bytes) => {
                out.append("val=");
                let ghost start = out@;
                let mut i: usize = 0;
                while i < bytes.len()
                    invariant
                        i <= bytes.len(),
                        out@ == start + hex_bytes_text(bytes@.take(i as int)),
                    decreases bytes.len() - i,
                {
                    proof {
                        assert(bytes@.take(i + 1).drop_last() =~= bytes@.take(i as int));
                    }
                    push_hex_pair(out, bytes[i] as usize);
                    i += 1;
                }
                out.push(' ');
                let ghost middle = out@;
                proof {
                    assert(bytes@.take(i as int) =~= bytes@);
                }
                i = 0;
                while i < bytes.len()
                    invariant
                        i <= bytes.len(),
                        out@ == middle + printable_text(bytes@).take(i as int),
                    decreases bytes.len() - i,
                {
                    let byte = bytes[i];
                    if byte >= 0x20 && byte < 0x7f {
                        out.push(byte as char);
                    } else {
                        out.push('.');
                    }
                    i += 1;
                }
            },
            Value::Nothing => {
                out.append("()");
            },
        }
    }

    /// Returns the value as text: one line for each child; `val=`, the
    /// bytes in hexadecimal, a space and the bytes as characters, a dot for
    /// each that cannot be printed; `()` for nothing.
    pub fn to_string(&self) -> (text: String)
        ensures
            text@ == self@.text(),
    {
        let mut out = String::new();
        self.push_text(&mut out);
        out
    }
}

impl Tlv {
    /// Appends the start of the node's text.
    fn push_head_text(&self, out: &mut String)
        ensures
            final(out)@ == old(out)@ + self@.head_text(),
    {
        out.append("tag=");
        push_hex_pair(out, self.tag());
        out.push(',');
        push_padding(out, 12, self.tag_len() * 2 + 5);
        out.append("len=");
        let digits = push_decimal(out, self.val().len());
        out.push(',');
        let ghost filled = out@;
        match self.val() {
            Value::Val(_) => {
                push_padding(out, 5, digits);
            },
            _ => {},
        }
        proof {
            let size = decimal_text(self@.val.bytes().len());
            assert(filled =~= old(out)@ + ("tag="@ + hex_pair_text(self@.tag) + seq![','] + spaces(
                padding(12, tag_bytes(self@.tag).len() * 2 + 5),
            ) + "len="@ + size + seq![',']));
        }
    }

    /// Appends the node as text.
    pub(crate) fn push_text(&self, out: &mut String)
        ensures
            final(out)@ == old(out)@ + self@.text(),
        decreases self@, 1nat,
    {
        self.push_head_text(out);
        self.val().push_text(out);
    }

    /// Returns the node as text: `tag=` and the tag number in hexadecimal,
    /// `len=` and the number of value bytes in decimal, each filled up with
    /// spaces to a column, then the value as [`Value::to_string`] gives it.
    pub fn to_string(&self) -> (text: String)
        ensures
            text@ == self@.text(),
    {
        let mut out = String::new();
        self.push_text(&mut out);
        out
    }
}

} // verus!
