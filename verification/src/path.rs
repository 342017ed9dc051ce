//! Tag paths: `/`-separated hexadecimal tag numbers that lead from the root
//! of a tree to one of its values.
use vstd::prelude::*;
use crate::model::{TlvView, ValueView};
use crate::tlv::{Tag, Tlv};
use crate::TlvError;

verus! {

/// The value of a hexadecimal digit in either case, if `c` is one.
pub open spec fn hex_digit(c: char) -> Option<nat> {
    if '0' <= c <= '9' {
        Some((c as u32 - '0' as u32) as nat)
    } else if 'a' <= c <= 'f' {
        Some((c as u32 - 'a' as u32 + 10) as nat)
    } else if 'A' <= c <= 'F' {
        Some((c as u32 - 'A' as u32 + 10) as nat)
    } else {
        None
    }
}

/// Whether `c` is white space, which a path may hold anywhere: a character
/// with the Unicode property `White_Space`.
pub open spec fn is_path_space(c: char) -> bool {
    let code = c as u32;
    ||| 0x09 <= code <= 0x0d
    ||| code == 0x20
    ||| code == 0x85
    ||| code == 0xa0
    ||| code == 0x1680
    ||| 0x2000 <= code <= 0x200a
    ||| code == 0x2028
    ||| code == 0x2029
    ||| code == 0x202f
    ||| code == 0x205f
    ||| code == 0x3000
}

/// The characters of `s` that are no white space.
pub open spec fn without_spaces(s: Seq<char>) -> Seq<char> {
    s.filter(|c: char| !is_path_space(c))
}

/// The pieces of `s` that stand between one `/` and the next: one more
/// than `s` has `/`.
pub open spec fn split_steps(s: Seq<char>) -> Seq<Seq<char>>
    decreases s.len(),
{
    if s.len() == 0 {
        seq![Seq::empty()]
    } else {
        let front = split_steps(s.drop_last());
        if s.last() == '/' {
            front.push(Seq::empty())
        } else {
            front.update(front.len() - 1, front.last().push(s.last()))
        }
    }
}

/// The number that the hexadecimal digits `digits` spell; `None` where
/// there is no digit, or a character that is none.
pub open spec fn hex_number(digits: Seq<char>) -> Option<nat>
    decreases digits.len(),
{
    if digits.len() == 0 {
        None
    } else {
        match hex_digit(digits.last()) {
            None => None,
            Some(digit) => if digits.len() == 1 {
                Some(digit)
            } else {
                match hex_number(digits.drop_last()) {
                    None => None,
                    Some(number) => Some(number * 16 + digit),
                }
            },
        }
    }
}

/// Whether `digits` is a step of a path: hexadecimal digits that spell a
/// number which fits `usize`.
pub open spec fn is_step(digits: Seq<char>) -> bool {
    hex_number(digits) matches Some(number) && number <= usize::MAX
}

/// The tag numbers that the path `s` names, from the root down; `None` where
/// `s` is no path.
///
/// A path is one or more steps with a `/` between them. A step is one or
/// more hexadecimal digits that spell a number which fits `usize`. White
/// space may stand anywhere and counts for nothing.
pub open spec fn parse_path(s: Seq<char>) -> Option<Seq<nat>> {
    let steps = split_steps(without_spaces(s));
    if forall|i: int| 0 <= i < steps.len() ==> is_step(#[trigger] steps[i]) {
        Some(Seq::new(steps.len(), |i: int| hex_number(steps[i])->Some_0))
    } else {
        None
    }
}

/// A path read up to some point: the tag numbers of the steps that a `/`
/// has closed, and the number that the digits of the open step spell, if
/// it has any digit yet.
pub struct PathScan {
    /// The tag numbers of the steps that a `/` has closed.
    pub closed: Seq<nat>,
    /// The number that the digits of the open step spell, if it has any.
    pub open: Option<nat>,
}

/// Reads `s` from left to right as the start of a path, and gives up at the
/// first character that no path can hold there.
///
/// White space is passed over. A hexadecimal digit adds to the open step,
/// unless the step's number then no longer fits `usize`. A `/` closes the
/// open step, unless that has no digit. No other character is accepted.
pub open spec fn scan_path(s: Seq<char>) -> Option<PathScan>
    decreases s.len(),
{
    if s.len() == 0 {
        Some(PathScan { closed: Seq::empty(), open: None })
    } else {
        match scan_path(s.drop_last()) {
            None => None,
            Some(scan) => {
                let c = s.last();
                if is_path_space(c) {
                    Some(scan)
                } else if c == '/' {
                    match scan.open {
                        Some(number) => Some(
                            PathScan { closed: scan.closed.push(number), open: None },
                        ),
                        None => None,
                    }
                } else {
                    match hex_digit(c) {
                        Some(digit) => {
                            let number = match scan.open {
                                Some(number) => number * 16 + digit,
                                None => digit,
                            };
                            if number <= usize::MAX {
                                Some(PathScan { closed: scan.closed, open: Some(number) })
                            } else {
                                None
                            }
                        },
                        None => None,
                    }
                }
            },
        }
    }
}

/// What reading `s` from left to right has to say of the steps of `s`:
/// where it has not given up, the steps before the last are steps of a path
/// and spell the closed numbers, and the last is empty or spells the open
/// number; where it has given up, a step before the last is no step of a
/// path, or the last is not empty and is none.
pub open spec fn scan_agrees(s: Seq<char>) -> bool {
    let steps = split_steps(without_spaces(s));
    &&& steps.len() >= 1
    &&& match scan_path(s) {
        Some(scan) => {
            &&& scan.closed.len() == steps.len() - 1
            &&& forall|i: int|
                0 <= i < steps.len() - 1 ==> is_step(#[trigger] steps[i]) && hex_number(steps[i])
                    == Some(scan.closed[i])
            &&& match scan.open {
                Some(number) => hex_number(steps.last()) == Some(number) && number <= usize::MAX,
                None => steps.last().len() == 0,
            }
        },
        None => {
            ||| exists|i: int| 0 <= i < steps.len() - 1 && !is_step(#[trigger] steps[i])
            ||| steps.last().len() > 0 && !is_step(steps.last())
        },
    }
}

/// Reading from left to right agrees with the steps of the path.
pub proof fn lemma_scan_agrees(s: Seq<char>)
    ensures
        scan_agrees(s),
    decreases s.len(),
{
    reveal(Seq::filter);
    if s.len() > 0 {
        let front = s.drop_last();
        let c = s.last();
        lemma_scan_agrees(front);
        let before = split_steps(without_spaces(front));
        let steps = split_steps(without_spaces(s));
        let last = before.last();
        if is_path_space(c) {
            assert(without_spaces(s) == without_spaces(front));
        } else {
            let text = without_spaces(front).push(c);
            assert(without_spaces(s) == text);
            assert(text.drop_last() =~= without_spaces(front));
            if c == '/' {
                assert(steps == before.push(Seq::empty()));
                assert(forall|i: int| 0 <= i < before.len() ==> steps[i] == before[i]);
                if scan_path(front) is None || scan_path(front)->Some_0.open is None {
                    if scan_path(front) is Some {
                        assert(!is_step(steps[before.len() - 1]));
                    } else if last.len() > 0 && !is_step(last) {
                        assert(!is_step(steps[before.len() - 1]));
                    } else {
                        let bad = choose|i: int|
                            0 <= i < before.len() - 1 && !is_step(#[trigger] before[i]);
                        assert(!is_step(steps[bad]));
                    }
                }
            } else {
                let grown = last.push(c);
                assert(steps == before.update(before.len() - 1, grown));
                assert(forall|i: int| 0 <= i < before.len() - 1 ==> steps[i] == before[i]);
                assert(steps.last() == grown);
                assert(grown.drop_last() =~= last);
                if scan_path(front) is None {
                    if last.len() > 0 && !is_step(last) {
                        assert(!is_step(grown));
                    } else {
                        let bad = choose|i: int|
                            0 <= i < before.len() - 1 && !is_step(#[trigger] before[i]);
                        assert(!is_step(steps[bad]));
                    }
                }
            }
        }
    } else {
        assert(without_spaces(s) =~= Seq::<char>::empty());
    }
}

/// The path that reading from left to right finds is the path that the
/// steps spell.
pub proof fn lemma_parse_path_by_scan(s: Seq<char>)
    ensures
        parse_path(s) == match scan_path(s) {
            Some(scan) => match scan.open {
                Some(number) => Some(scan.closed.push(number)),
                None => None,
            },
            None => None,
        },
{
    lemma_scan_agrees(s);
    let steps = split_steps(without_spaces(s));
    match scan_path(s) {
        Some(scan) => match scan.open {
            Some(number) => {
                assert(forall|i: int| 0 <= i < steps.len() ==> is_step(#[trigger] steps[i])) by {
                    assert(is_step(steps[steps.len() - 1]));
                }
                assert(parse_path(s)->Some_0 =~= scan.closed.push(number));
            },
            None => {
                assert(!is_step(steps[steps.len() - 1]));
            },
        },
        None => {},
    }
}

/// Once a prefix of `s` has been given up, so has `s`.
pub proof fn lemma_scan_path_given_up(s: Seq<char>, k: int)
    requires
        0 <= k <= s.len(),
        scan_path(s.take(k)) is None,
    ensures
        scan_path(s) is None,
    decreases s.len() - k,
{
    if k < s.len() {
        assert(s.take(k + 1).drop_last() =~= s.take(k));
        lemma_scan_path_given_up(s, k + 1);
    } else {
        assert(s.take(k) =~= s);
    }
}

/// The first node of `list` with the tag number `tag`, if there is one.
pub open spec fn first_with_tag(list: Seq<TlvView>, tag: nat) -> Option<TlvView>
    decreases list.len(),
{
    if list.len() == 0 {
        None
    } else if list.first().tag == tag {
        Some(list.first())
    } else {
        first_with_tag(list.drop_first(), tag)
    }
}

impl ValueView {
    /// The value that the steps `tags` lead to from this value: the value
    /// itself where no step is left, else what the rest of the steps lead
    /// to from the first child that has the first step's tag number.
    /// `None` where a step finds no such child, or no children at all.
    pub open spec fn descend(self, tags: Seq<nat>) -> Option<ValueView>
        decreases tags.len(),
    {
        if tags.len() == 0 {
            Some(self)
        } else {
            match self {
                ValueView::TlvList(list) => match first_with_tag(list, tags.first()) {
                    Some(child) => child.val.descend(tags.drop_first()),
                    None => None,
                },
                _ => None,
            }
        }
    }
}

impl TlvView {
    /// The value that the steps `tags` lead to, where the first step names
    /// this node itself.
    pub open spec fn lookup(self, tags: Seq<nat>) -> Option<ValueView> {
        if tags.len() > 0 && tags.first() == self.tag {
            self.val.descend(tags.drop_first())
        } else {
            None
        }
    }

    /// The value that the path `path` leads to, where its first step names
    /// this node itself; `None` where `path` is no path or leads nowhere.
    pub open spec fn find(self, path: Seq<char>) -> Option<ValueView> {
        match parse_path(path) {
            Some(tags) => self.lookup(tags),
            None => None,
        }
    }
}

/// The tag numbers `tags` as mathematical numbers.
pub open spec fn tag_numbers(tags: Seq<Tag>) -> Seq<nat> {
    tags.map_values(|tag: Tag| tag as nat)
}

/// Returns the value of a hexadecimal digit in either case, if `c` is one.
fn hex_digit_of(c: char) -> (digit: Option<u8>)
    ensures
        match digit {
            Some(d) => hex_digit(c) == Some(d as nat) && d < 16,
            None => hex_digit(c) is None,
        },
{
    if '0' <= c && c <= '9' {
        Some((c as u32 - '0' as u32) as u8)
    } else if 'a' <= c && c <= 'f' {
        Some((c as u32 - 'a' as u32 + 10) as u8)
    } else if 'A' <= c && c <= 'F' {
        Some((c as u32 - 'A' as u32 + 10) as u8)
    } else {
        None
    }
}

/// Tells whether `c` is white space.
fn is_space(c: char) -> (space: bool)
    ensures
        space == is_path_space(c),
{
    let code = c as u32;
    (0x09 <= code && code <= 0x0d) || code == 0x20 || code == 0x85 || code == 0xa0 || code
        == 0x1680 || (0x2000 <= code && code <= 0x200a) || code == 0x2028 || code == 0x2029
        || code == 0x202f || code == 0x205f || code == 0x3000
}

impl Tlv {
    /// Reads a path such as `"6F / A5"` into its tag numbers.
    ///
    /// What is no path is refused with `TlvError::TagPathError`.
    pub fn get_path(path: &str) -> (res: Result<Vec<Tag>, TlvError>)
        ensures
            match res {
                Ok(tags) => parse_path(path@) == Some(tag_numbers(tags@)),
                Err(e) => e == TlvError::TagPathError && parse_path(path@) is None,
            },
    {
        let mut tags: Vec<Tag> = Vec::new();
        let mut open: Option<Tag> = None;
        proof {
            assert(tag_numbers(tags@) =~= Seq::<nat>::empty());
            assert(path@.take(0).len() == 0);
        }
        for c in it: path.chars()
            invariant
                it.seq() == path@,
                scan_path(path@.take(it.index())) == Some(
                    PathScan {
                        closed: tag_numbers(tags@),
                        open: match open {
                            Some(number) => Some(number as nat),
                            None => None,
                        },
                    },
                ),
        {
            let ghost k = it.index();
            proof {
                assert(path@.take(k + 1).drop_last() =~= path@.take(k));
            }
            if is_space(c) {
                // white space counts for nothing
            } else if c == '/' {
                match open {
                    Some(number) => {
                        proof {
                            assert(tag_numbers(tags@.push(number)) =~= tag_numbers(tags@).push(
                                number as nat,
                            ));
                        }
                        tags.push(number);
                        open = None;
                    },
                    None => {
                        proof {
                            lemma_scan_path_given_up(path@, k + 1);
                            lemma_parse_path_by_scan(path@);
                        }
                        return Err(TlvError::TagPathError);
                    },
                }
            } else {
                let number = match hex_digit_of(c) {
                    Some(digit) => match open {
                        Some(number) => match number.checked_mul(16) {
                            Some(shifted) => shifted.checked_add(digit as usize),
                            None => None,
                        },
                        None => Some(digit as usize),
                    },
                    None => None,
                };
                if number.is_none() {
                    proof {
                        lemma_scan_path_given_up(path@, k + 1);
                        lemma_parse_path_by_scan(path@);
                    }
                    return Err(TlvError::TagPathError);
                }
                open = number;
            }
        }
        proof {
            assert(path@.take(path@.len() as int) =~= path@);
            lemma_parse_path_by_scan(path@);
        }
        match open {
            Some(number) => {
                proof {
                    assert(tag_numbers(tags@.push(number)) =~= tag_numbers(tags@).push(
                        number as nat,
                    ));
                }
                tags.push(number);
                Ok(tags)
            },
            None => Err(TlvError::TagPathError),
        }
    }
}

} // verus!
