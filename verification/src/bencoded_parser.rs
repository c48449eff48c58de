//! Bencoding: the grammar as a function on bytes, the decoder and the
//! encoder.

use vstd::prelude::*;
use vstd::string::StringExecFns;
use crate::digest::{sha1, sha1_digest};
use crate::helpers::{decimal_text, push_decimal_text, same_bytes};

verus! {

/// A bencoded value.
#[derive(Debug, PartialEq, Eq)]
pub enum Element {
    /// A mapping from byte-string keys to values, the entries in the order
    /// in which they stood in the input, no key twice.
    Dict(Vec<(Vec<u8>, Element)>),
    Integer(i64),
    ByteString(Vec<u8>),
    List(Vec<Element>),
}

/// A bencoded value as a mathematical value.
pub enum Value {
    Dict(Seq<(Seq<u8>, Value)>),
    Integer(int),
    ByteString(Seq<u8>),
    List(Seq<Value>),
}

/// Where decoding failed: the offset of the offending byte and the byte
/// itself, or the length of the input and 0 where the input ended too soon.
#[derive(Debug, PartialEq, Eq, Structural, Clone, Copy)]
pub struct InvalidCharError {
    pub index: usize,
    pub curr: u8,
}

impl InvalidCharError {
    /// What went wrong, in words: the offset and the byte, both in decimal.
    pub fn message(&self) -> (text: String)
        ensures
            text@ == "Invalid char found in bencoded file at index:"@ + decimal_text(
                self.index as nat,
            ) + ", char:"@ + decimal_text(self.curr as nat),
    {
        let mut text = String::new();
        text.append("Invalid char found in bencoded file at index:");
        push_decimal_text(&mut text, self.index as u64);
        text.append(", char:");
        push_decimal_text(&mut text, self.curr as u64);
        proof {
            assert(text@ =~= "Invalid char found in bencoded file at index:"@ + decimal_text(
                self.index as nat,
            ) + ", char:"@ + decimal_text(self.curr as nat));
        }
        text
    }
}

/// The mathematical value of an element.
pub open spec fn value_of(e: Element) -> Value
    decreases e,
{
    match e {
        Element::Dict(d) => Value::Dict(
            Seq::new(
                d@.len(),
                |i: int|
                    if 0 <= i < d@.len() {
                        (d@[i].0@, value_of(d@[i].1))
                    } else {
                        (Seq::empty(), Value::Integer(0))
                    },
            ),
        ),
        Element::Integer(i) => Value::Integer(i as int),
        Element::ByteString(b) => Value::ByteString(b@),
        Element::List(l) => Value::List(
            Seq::new(
                l@.len(),
                |i: int|
                    if 0 <= i < l@.len() {
                        value_of(l@[i])
                    } else {
                        Value::Integer(0)
                    },
            ),
        ),
    }
}

impl View for Element {
    type V = Value;

    open spec fn view(&self) -> Value {
        value_of(*self)
    }
}

/// Whether `b` is an ASCII decimal digit.
pub open spec fn is_digit(b: u8) -> bool {
    48 <= b <= 57
}

/// The failure at offset `pos` of `s`.
pub open spec fn fault(s: Seq<u8>, pos: int) -> InvalidCharError {
    InvalidCharError {
        index: pos as usize,
        curr: if 0 <= pos < s.len() {
            s[pos]
        } else {
            0
        },
    }
}

/// Number of decimal digits that stand in `s` from `pos` on.
pub open spec fn digit_run(s: Seq<u8>, pos: int) -> nat
    decreases s.len() - pos,
{
    if 0 <= pos < s.len() && is_digit(s[pos]) {
        1 + digit_run(s, pos + 1)
    } else {
        0
    }
}

/// The number that the decimal digits `s[from..to]` write.
pub open spec fn decimal(s: Seq<u8>, from: int, to: int) -> nat
    decreases to - from,
{
    if to <= from {
        0
    } else {
        decimal(s, from, to - 1) * 10 + (s[to - 1] - 48) as nat
    }
}

/// Whether the digits `s[from..to]` begin with a zero that is not the
/// whole number.
pub open spec fn leading_zero(s: Seq<u8>, from: int, to: int) -> bool {
    to > from + 1 && s[from] == 48
}

/// Decodes the integer that starts with `i` at `pos`: an optional minus
/// sign, at least one digit, and `e`. Leading zeros and `-0` are taken,
/// unless `strict`: then they fail at the first digit. A number outside
/// the 64-bit signed range fails at its first digit.
pub open spec fn parse_int(s: Seq<u8>, pos: int, strict: bool) -> Result<
    (int, int),
    InvalidCharError,
> {
    let negative = pos + 1 < s.len() && s[pos + 1] == 45;
    let start = if negative {
        pos + 2
    } else {
        pos + 1
    };
    let end = start + digit_run(s, start);
    let magnitude = decimal(s, start, end);
    if end == start {
        Err(fault(s, start))
    } else if !(end < s.len() && s[end] == 101) {
        Err(fault(s, end))
    } else if strict && (leading_zero(s, start, end) || (negative && magnitude == 0)) {
        Err(fault(s, start))
    } else if negative && magnitude > 0x8000_0000_0000_0000 {
        Err(fault(s, start))
    } else if !negative && magnitude > 0x7fff_ffff_ffff_ffff {
        Err(fault(s, start))
    } else if negative {
        Ok((-(magnitude as int), end + 1))
    } else {
        Ok((magnitude as int, end + 1))
    }
}

/// Decodes the byte string that starts with a digit at `pos`: the length
/// in decimal, `:`, and that many bytes. A length with leading zeros is
/// taken, unless `strict`: then it fails at its first digit. A string that
/// runs past the end of the input fails there.
pub open spec fn parse_bytes(s: Seq<u8>, pos: int, strict: bool) -> Result<
    (Seq<u8>, int),
    InvalidCharError,
> {
    let end = pos + digit_run(s, pos);
    let n = decimal(s, pos, end);
    if !(end < s.len() && s[end] == 58) {
        Err(fault(s, end))
    } else if strict && leading_zero(s, pos, end) {
        Err(fault(s, pos))
    } else if end + 1 + n > s.len() {
        Err(fault(s, s.len() as int))
    } else {
        Ok((s.subrange(end + 1, end + 1 + n), end + 1 + n))
    }
}

/// Whether `key` is the key of one of `entries`.
pub open spec fn has_key(entries: Seq<(Seq<u8>, Value)>, key: Seq<u8>) -> bool {
    exists|i: int| 0 <= i < entries.len() && (#[trigger] entries[i]).0 == key
}

/// Decodes the value that starts at `pos`: the value and the offset after
/// it, or the first failure. A value starts with `i`, `l`, `d` or a digit.
/// With `strict`, numbers must be written as the encoder writes them.
pub open spec fn parse_value(s: Seq<u8>, pos: int, strict: bool) -> Result<
    (Value, int),
    InvalidCharError,
>
    decreases s.len() - pos, 0nat,
{
    if !(0 <= pos < s.len()) {
        Err(fault(s, pos))
    } else if s[pos] == 105 {
        match parse_int(s, pos, strict) {
            Ok((i, next)) => Ok((Value::Integer(i), next)),
            Err(e) => Err(e),
        }
    } else if is_digit(s[pos]) {
        match parse_bytes(s, pos, strict) {
            Ok((b, next)) => Ok((Value::ByteString(b), next)),
            Err(e) => Err(e),
        }
    } else if s[pos] == 108 {
        match parse_items(s, pos + 1, Seq::empty(), strict) {
            Ok((items, next)) => Ok((Value::List(items), next)),
            Err(e) => Err(e),
        }
    } else if s[pos] == 100 {
        match parse_entries(s, pos + 1, Seq::empty(), strict) {
            Ok((entries, next)) => Ok((Value::Dict(entries), next)),
            Err(e) => Err(e),
        }
    } else {
        Err(fault(s, pos))
    }
}

/// Decodes the rest of a list from `pos` on, after the items `acc`: values
/// up to `e`.
pub open spec fn parse_items(s: Seq<u8>, pos: int, acc: Seq<Value>, strict: bool) -> Result<
    (Seq<Value>, int),
    InvalidCharError,
>
    decreases s.len() - pos, 1nat,
{
    if !(0 <= pos < s.len()) {
        Err(fault(s, pos))
    } else if s[pos] == 101 {
        Ok((acc, pos + 1))
    } else {
        match parse_value(s, pos, strict) {
            Ok((v, next)) => if pos < next <= s.len() {
                parse_items(s, next, acc.push(v), strict)
            } else {
                Err(fault(s, pos))
            },
            Err(e) => Err(e),
        }
    }
}

/// Decodes the rest of a mapping from `pos` on, after the entries `acc`:
/// pairs of a byte-string key and a value up to `e`, in any order of keys.
/// A key that is no byte string, or that stood in the mapping before,
/// fails at the key's first byte.
pub open spec fn parse_entries(
    s: Seq<u8>,
    pos: int,
    acc: Seq<(Seq<u8>, Value)>,
    strict: bool,
) -> Result<
    (Seq<(Seq<u8>, Value)>, int),
    InvalidCharError,
>
    decreases s.len() - pos, 1nat,
{
    if !(0 <= pos < s.len()) {
        Err(fault(s, pos))
    } else if s[pos] == 101 {
        Ok((acc, pos + 1))
    } else if !is_digit(s[pos]) {
        Err(fault(s, pos))
    } else {
        match parse_bytes(s, pos, strict) {
            Ok((key, at)) => if has_key(acc, key) {
                Err(fault(s, pos))
            } else {
                match parse_value(s, at, strict) {
                    Ok((v, next)) => if at < next <= s.len() {
                        parse_entries(s, next, acc.push((key, v)), strict)
                    } else {
                        Err(fault(s, pos))
                    },
                    Err(e) => Err(e),
                }
            },
            Err(e) => Err(e),
        }
    }
}

/// The bytes `info`, the key of the value that identifies a swarm.
pub open spec fn info_key() -> Seq<u8> {
    seq![105u8, 110u8, 102u8, 111u8]
}

/// Looks among the entries of a mapping, from `pos` on, for the key `info`:
/// the offset at which its value starts and the offset after the value.
pub open spec fn find_info(s: Seq<u8>, pos: int, strict: bool) -> Option<(int, int)>
    decreases s.len() - pos,
{
    if !(0 <= pos < s.len()) || !is_digit(s[pos]) {
        None
    } else {
        match parse_bytes(s, pos, strict) {
            Ok((key, at)) => match parse_value(s, at, strict) {
                Ok((v, next)) => if key == info_key() {
                    Some((at, next))
                } else if at < next <= s.len() {
                    find_info(s, next, strict)
                } else {
                    None
                },
                Err(e) => None,
            },
            Err(e) => None,
        }
    }
}

/// The span of the value of the key `info` in the outer mapping of `s`,
/// where `s` starts with a mapping that has that key.
pub open spec fn info_span(s: Seq<u8>, strict: bool) -> Option<(int, int)> {
    if s.len() > 0 && s[0] == 100 {
        find_info(s, 1, strict)
    } else {
        None
    }
}

/// The bytes that the info hash is taken of: those of the value of `info`
/// as they stand in `s`, or none where there is no such value.
pub open spec fn info_bytes(s: Seq<u8>, strict: bool) -> Seq<u8> {
    match info_span(s, strict) {
        Some((from, to)) => s.subrange(from, to),
        None => Seq::empty(),
    }
}

/// The elements of a list as values.
pub open spec fn views(l: Seq<Element>) -> Seq<Value> {
    Seq::new(l.len(), |i: int| l[i]@)
}

/// The entries of a mapping as values.
pub open spec fn entry_views(d: Seq<(Vec<u8>, Element)>) -> Seq<(Seq<u8>, Value)> {
    Seq::new(d.len(), |i: int| (d[i].0@, d[i].1@))
}

/// A list element is the list of its elements' values.
pub proof fn lemma_list_view(l: Vec<Element>)
    ensures
        Element::List(l)@ == Value::List(views(l@)),
{
    assert(Element::List(l)@->List_0 =~= views(l@));
}

/// A mapping element is the mapping of its entries' values.
pub proof fn lemma_dict_view(d: Vec<(Vec<u8>, Element)>)
    ensures
        Element::Dict(d)@ == Value::Dict(entry_views(d@)),
{
    let e = Element::Dict(d);
    assert(e@ is Dict);
    let entries = e@->Dict_0;
    assert(entries.len() == d@.len());
    assert forall|i: int| 0 <= i < d@.len() implies entries[i] == entry_views(d@)[i] by {
        assert(entries[i].0 == d@[i].0@);
        assert(entries[i].1 == d@[i].1@);
    }
    assert(entries =~= entry_views(d@));
}

/// A value that decodes takes at least one byte and ends within the input.
pub proof fn lemma_parse_advances(s: Seq<u8>, pos: int, strict: bool)
    ensures
        parse_value(s, pos, strict) matches Ok((v, next)) ==> pos < next <= s.len(),
    decreases s.len() - pos, 0nat,
{
    if 0 <= pos < s.len() {
        if s[pos] == 105 {
        } else if is_digit(s[pos]) {
        } else if s[pos] == 108 {
            lemma_items_advance(s, pos + 1, Seq::empty(), strict);
        } else if s[pos] == 100 {
            lemma_entries_advance(s, pos + 1, Seq::empty(), strict);
        }
    }
}

proof fn lemma_items_advance(s: Seq<u8>, pos: int, acc: Seq<Value>, strict: bool)
    ensures
        parse_items(s, pos, acc, strict) matches Ok((items, next)) ==> pos < next <= s.len(),
    decreases s.len() - pos, 1nat,
{
    if 0 <= pos < s.len() && s[pos] != 101 {
        match parse_value(s, pos, strict) {
            Ok((v, next)) => {
                if pos < next <= s.len() {
                    lemma_items_advance(s, next, acc.push(v), strict);
                }
            },
            Err(e) => {},
        }
    }
}

proof fn lemma_entries_advance(s: Seq<u8>, pos: int, acc: Seq<(Seq<u8>, Value)>, strict: bool)
    ensures
        parse_entries(s, pos, acc, strict) matches Ok((entries, next)) ==> pos < next <= s.len(),
    decreases s.len() - pos, 1nat,
{
    if 0 <= pos < s.len() && s[pos] != 101 && is_digit(s[pos]) {
        match parse_bytes(s, pos, strict) {
            Ok((key, at)) => {
                match parse_value(s, at, strict) {
                    Ok((v, next)) => {
                        if at < next <= s.len() {
                            lemma_entries_advance(s, next, acc.push((key, v)), strict);
                        }
                    },
                    Err(e) => {},
                }
            },
            Err(e) => {},
        }
    }
}

/// The state of a decoder: the input, the offset of the next byte, the byte
/// read last, and the span of the `info` value once it has been seen.
#[derive(Debug)]
pub struct Bencode {
    buf: Vec<u8>,
    ind: usize,
    curr: u8,
    info_ind: Option<(usize, usize)>,
    strict: bool,
}

/// The span that a decoder has recorded, as offsets.
pub open spec fn span_of(info_ind: Option<(usize, usize)>) -> Option<(int, int)> {
    match info_ind {
        Some((from, to)) => Some((from as int, to as int)),
        None => None,
    }
}

impl Bencode {
    /// Whether the decoder stands within its input.
    pub closed spec fn wf(&self) -> bool {
        self.ind <= self.buf@.len()
    }

    /// The input.
    pub closed spec fn input(&self) -> Seq<u8> {
        self.buf@
    }

    /// The offset of the next byte.
    pub closed spec fn offset(&self) -> int {
        self.ind as int
    }

    /// The span of the `info` value, once it has been seen.
    pub closed spec fn info(&self) -> Option<(int, int)> {
        span_of(self.info_ind)
    }

    /// Whether the decoder takes numbers only as the encoder writes them.
    pub closed spec fn is_strict(&self) -> bool {
        self.strict
    }

    /// A decoder at the start of `buf` that takes leading zeros and `-0`.
    pub fn new(buf: Vec<u8>) -> (b: Bencode)
        ensures
            b.wf(),
            b.input() == buf@,
            b.offset() == 0,
            b.info() is None,
            !b.is_strict(),
    {
        Bencode { buf, ind: 0, curr: 0, info_ind: None, strict: false }
    }

    /// A decoder at the start of `buf` that, if `strict`, takes numbers
    /// only as the encoder writes them.
    pub fn with_mode(buf: Vec<u8>, strict: bool) -> (b: Bencode)
        ensures
            b.wf(),
            b.input() == buf@,
            b.offset() == 0,
            b.info() is None,
            b.is_strict() == strict,
    {
        Bencode { buf, ind: 0, curr: 0, info_ind: None, strict }
    }

    /// Takes the next byte, if there is one.
    fn read_char(&mut self) -> (c: Option<u8>)
        requires
            old(self).wf(),
        ensures
            final(self).wf(),
            final(self).buf == old(self).buf,
            final(self).strict == old(self).strict,
            final(self).info_ind == old(self).info_ind,
            match c {
                Some(b) => old(self).ind < old(self).buf@.len() && b == old(self).buf@[old(
                    self,
                ).ind as int] && final(self).ind == old(self).ind + 1 && final(self).curr == b,
                None => old(self).ind == old(self).buf@.len() && final(self).ind == old(self).ind,
            },
    {
        if self.ind < self.buf.len() {
            let tmp: u8 = self.buf[self.ind];
            self.curr = tmp;
            self.ind += 1;
            Some(tmp)
        } else {
            None
        }
    }

    /// The byte that was read last.
    fn get_char(&self) -> (c: u8)
        ensures
            c == self.curr,
    {
        self.curr
    }

    /// Steps back over the byte that was read last.
    fn unread_char(&mut self)
        requires
            old(self).wf(),
            old(self).ind > 0,
        ensures
            final(self).wf(),
            final(self).buf == old(self).buf,
            final(self).strict == old(self).strict,
            final(self).info_ind == old(self).info_ind,
            final(self).ind == old(self).ind - 1,
    {
        self.ind -= 1;
        self.curr = self.buf[self.ind];
    }

    /// The failure at `pos`.
    fn fault_at(&self, pos: usize) -> (e: InvalidCharError)
        requires
            pos <= self.buf@.len(),
        ensures
            e == fault(self.buf@, pos as int),
    {
        InvalidCharError {
            index: pos,
            curr: if pos < self.buf.len() {
                self.buf[pos]
            } else {
                0
            },
        }
    }

    /// Reads the digits that stand at the decoder's offset and returns the
    /// number they write, or that it is larger than `cap`.
    fn read_digits(&mut self, cap: u64) -> (r: (u64, bool))
        requires
            old(self).wf(),
        ensures
            final(self).wf(),
            final(self).buf == old(self).buf,
            final(self).strict == old(self).strict,
            final(self).info_ind == old(self).info_ind,
            final(self).ind == old(self).ind + digit_run(old(self).buf@, old(self).ind as int),
            r.1 == (decimal(old(self).buf@, old(self).ind as int, final(self).ind as int) > cap),
            !r.1 ==> r.0 == decimal(old(self).buf@, old(self).ind as int, final(self).ind as int),
    {
        let ghost s = self.buf@;
        let ghost start = self.ind as int;
        let mut acc: u64 = 0;
        let mut over: bool = false;
        while self.ind < self.buf.len() && self.buf[self.ind] >= 48 && self.buf[self.ind] <= 57
            invariant
                self.wf(),
                self.buf == old(self).buf,
                self.strict == old(self).strict,
                self.info_ind == old(self).info_ind,
                s == self.buf@,
                start == old(self).ind,
                start <= self.ind,
                digit_run(s, start) == (self.ind - start) + digit_run(s, self.ind as int),
                over == (decimal(s, start, self.ind as int) > cap),
                !over ==> acc == decimal(s, start, self.ind as int),
            decreases self.buf@.len() - self.ind,
        {
            let d: u8 = self.buf[self.ind] - 48;
            if !over {
                let v: u128 = (acc as u128) * 10 + d as u128;
                if v > cap as u128 {
                    over = true;
                } else {
                    acc = v as u64;
                }
            } else {
                assert(decimal(s, start, self.ind + 1) >= decimal(s, start, self.ind as int))
                    by (nonlinear_arith)
                    requires
                        decimal(s, start, self.ind + 1) == decimal(s, start, self.ind as int) * 10
                            + d,
                ;
            }
            self.ind += 1;
        }
        (acc, over)
    }
}

/// What a decoding step that started at `pos` of `s` must have done: the
/// value and the offset that the grammar gives, or the grammar's failure.
pub open spec fn decoded_as(
    r: Result<Element, InvalidCharError>,
    stopped: int,
    s: Seq<u8>,
    pos: int,
    strict: bool,
) -> bool {
    match parse_value(s, pos, strict) {
        Ok((v, next)) => r matches Ok(e) && e@ == v && stopped == next,
        Err(fault) => r == Err::<Element, InvalidCharError>(fault),
    }
}

fn is_info(key: &Vec<u8>) -> (yes: bool)
    ensures
        yes == (key@ == info_key()),
{
    let yes = key.len() == 4 && key[0] == 105 && key[1] == 110 && key[2] == 102 && key[3] == 111;
    proof {
        if yes {
            assert(key@ =~= info_key());
        }
    }
    yes
}

fn holds_key(entries: &Vec<(Vec<u8>, Element)>, key: &Vec<u8>) -> (found: bool)
    ensures
        found == has_key(entry_views(entries@), key@),
{
    let mut i: usize = 0;
    while i < entries.len()
        invariant
            i <= entries@.len(),
            forall|k: int| 0 <= k < i ==> (#[trigger] entry_views(entries@)[k]).0 != key@,
        decreases entries@.len() - i,
    {
        if same_bytes(entries[i].0.as_slice(), key.as_slice()) {
            assert(entry_views(entries@)[i as int].0 == key@);
            return true;
        }
        i += 1;
    }
    false
}

impl Bencode {
    /// Decodes the integer whose `i` has just been read.
    fn read_int(&mut self) -> (r: Result<Element, InvalidCharError>)
        requires
            old(self).wf(),
            old(self).ind > 0,
            old(self).buf@[old(self).ind - 1] == 105,
        ensures
            final(self).wf(),
            final(self).buf == old(self).buf,
            final(self).strict == old(self).strict,
            final(self).info_ind == old(self).info_ind,
            decoded_as(
                r,
                final(self).ind as int,
                old(self).buf@,
                old(self).ind - 1,
                old(self).strict,
            ),
    {
        let negative: bool = self.ind < self.buf.len() && self.buf[self.ind] == 45;
        if negative {
            self.ind += 1;
        }
        let start: usize = self.ind;
        let (magnitude, over) = self.read_digits(0x8000_0000_0000_0000);
        if self.ind == start {
            return Err(self.fault_at(start));
        }
        if !(self.ind < self.buf.len() && self.buf[self.ind] == 101) {
            return Err(self.fault_at(self.ind));
        }
        if self.strict && ((self.ind - start > 1 && self.buf[start] == 48) || (negative && !over
            && magnitude == 0)) {
            return Err(self.fault_at(start));
        }
        if over || (!negative && magnitude > 0x7fff_ffff_ffff_ffff) {
            return Err(self.fault_at(start));
        }
        self.ind += 1;
        let value: i64 = if !negative {
            magnitude as i64
        } else if magnitude == 0x8000_0000_0000_0000 {
            i64::MIN
        } else {
            -(magnitude as i64)
        };
        Ok(Element::Integer(value))
    }

    /// Reads the length, the colon and the bytes of the byte string at the
    /// decoder's offset.
    fn read_bytes(&mut self) -> (r: Result<Vec<u8>, InvalidCharError>)
        requires
            old(self).wf(),
        ensures
            final(self).wf(),
            final(self).buf == old(self).buf,
            final(self).strict == old(self).strict,
            final(self).info_ind == old(self).info_ind,
            match parse_bytes(old(self).buf@, old(self).ind as int, old(self).strict) {
                Ok((b, next)) => r matches Ok(v) && v@ == b && final(self).ind == next,
                Err(fault) => r == Err::<Vec<u8>, InvalidCharError>(fault),
            },
    {
        let len: usize = self.buf.len();
        let start: usize = self.ind;
        let (n, over) = self.read_digits(len as u64);
        if !(self.ind < len && self.buf[self.ind] == 58) {
            return Err(self.fault_at(self.ind));
        }
        if self.strict && self.ind - start > 1 && self.buf[start] == 48 {
            return Err(self.fault_at(start));
        }
        if over || n > (len - self.ind - 1) as u64 {
            return Err(self.fault_at(len));
        }
        let from: usize = self.ind + 1;
        let to: usize = from + n as usize;
        let s: Vec<u8> = vstd::slice::slice_to_vec(
            vstd::slice::slice_subrange(self.buf.as_slice(), from, to),
        );
        self.ind = to;
        Ok(s)
    }

    /// Decodes the byte string whose first digit has just been read.
    fn read_byte_string(&mut self) -> (r: Result<Element, InvalidCharError>)
        requires
            old(self).wf(),
            old(self).ind > 0,
            is_digit(old(self).buf@[old(self).ind - 1]),
        ensures
            final(self).wf(),
            final(self).buf == old(self).buf,
            final(self).strict == old(self).strict,
            final(self).info_ind == old(self).info_ind,
            decoded_as(
                r,
                final(self).ind as int,
                old(self).buf@,
                old(self).ind - 1,
                old(self).strict,
            ),
    {
        self.unread_char();
        match self.read_bytes() {
            Ok(s) => Ok(Element::ByteString(s)),
            Err(e) => Err(e),
        }
    }

    /// Decodes the list whose `l` has just been read.
    fn read_list(&mut self) -> (r: Result<Element, InvalidCharError>)
        requires
            old(self).wf(),
            old(self).ind > 0,
            old(self).buf@[old(self).ind - 1] == 108,
        ensures
            final(self).wf(),
            final(self).buf == old(self).buf,
            final(self).strict == old(self).strict,
            final(self).info_ind == old(self).info_ind,
            decoded_as(
                r,
                final(self).ind as int,
                old(self).buf@,
                old(self).ind - 1,
                old(self).strict,
            ),
        decreases old(self).buf@.len() - old(self).ind, 1nat,
    {
        let ghost s = self.buf@;
        let ghost start = self.ind as int;
        let mut v: Vec<Element> = Vec::new();
        assert(views(v@) =~= Seq::<Value>::empty());
        loop
            invariant
                self.wf(),
                self.buf == old(self).buf,
                self.strict == old(self).strict,
                self.info_ind == old(self).info_ind,
                s == self.buf@,
                start == old(self).ind,
                0 < start <= self.ind,
                s[start - 1] == 108,
                parse_items(s, start, Seq::empty(), self.strict) == parse_items(
                    s,
                    self.ind as int,
                    views(v@),
                    self.strict,
                ),
            decreases s.len() - self.ind,
        {
            let at: usize = self.ind;
            match self.read_char() {
                None => {
                    return Err(self.fault_at(at));
                },
                Some(c) => {
                    if c == 101 {
                        proof {
                            lemma_list_view(v);
                        }
                        return Ok(Element::List(v));
                    }
                    self.unread_char();
                    proof {
                        lemma_parse_advances(s, at as int, self.strict);
                    }
                    match self.call_element(false) {
                        Ok(e) => {
                            proof {
                                assert(views(v@.push(e)) =~= views(v@).push(e@));
                            }
                            v.push(e);
                        },
                        Err(e) => {
                            return Err(e);
                        },
                    }
                },
            }
        }
    }

    /// Decodes the mapping whose `d` has just been read. In the outer
    /// mapping, records the span of the value of the key `info`.
    fn read_dict(&mut self, outer: bool) -> (r: Result<Element, InvalidCharError>)
        requires
            old(self).wf(),
            old(self).ind > 0,
            old(self).buf@[old(self).ind - 1] == 100,
            outer ==> old(self).info_ind is None,
        ensures
            final(self).wf(),
            final(self).buf == old(self).buf,
            final(self).strict == old(self).strict,
            decoded_as(
                r,
                final(self).ind as int,
                old(self).buf@,
                old(self).ind - 1,
                old(self).strict,
            ),
            !outer ==> final(self).info_ind == old(self).info_ind,
            outer && r is Ok ==> span_of(final(self).info_ind) == find_info(
                old(self).buf@,
                old(self).ind as int,
                old(self).strict,
            ),
        decreases old(self).buf@.len() - old(self).ind, 1nat,
    {
        let ghost s = self.buf@;
        let ghost start = self.ind as int;
        let mut mp: Vec<(Vec<u8>, Element)> = Vec::new();
        assert(entry_views(mp@) =~= Seq::<(Seq<u8>, Value)>::empty());
        loop
            invariant
                self.wf(),
                self.buf == old(self).buf,
                self.strict == old(self).strict,
                !outer ==> self.info_ind == old(self).info_ind,
                s == self.buf@,
                start == old(self).ind,
                0 < start <= self.ind,
                s[start - 1] == 100,
                parse_entries(s, start, Seq::empty(), self.strict) == parse_entries(
                    s,
                    self.ind as int,
                    entry_views(mp@),
                    self.strict,
                ),
                outer ==> find_info(s, start, self.strict) == (match self.info_ind {
                    Some(span) => span_of(self.info_ind),
                    None => find_info(s, self.ind as int, self.strict),
                }),
            decreases s.len() - self.ind,
        {
            let at: usize = self.ind;
            match self.read_char() {
                None => {
                    return Err(self.fault_at(at));
                },
                Some(c) => {
                    if c == 101 {
                        proof {
                            lemma_dict_view(mp);
                        }
                        return Ok(Element::Dict(mp));
                    }
                    if !(c >= 48 && c <= 57) {
                        return Err(self.fault_at(at));
                    }
                    self.unread_char();
                    let key: Vec<u8> = match self.read_bytes() {
                        Ok(key) => key,
                        Err(e) => {
                            return Err(e);
                        },
                    };
                    if holds_key(&mp, &key) {
                        return Err(self.fault_at(at));
                    }
                    let from: usize = self.ind;
                    proof {
                        lemma_parse_advances(s, from as int, self.strict);
                    }
                    let value: Element = match self.call_element(false) {
                        Ok(value) => value,
                        Err(e) => {
                            return Err(e);
                        },
                    };
                    if outer && self.info_ind.is_none() && is_info(&key) {
                        self.info_ind = Some((from, self.ind));
                    }
                    proof {
                        assert(entry_views(mp@.push((key, value))) =~= entry_views(mp@).push(
                            (key@, value@),
                        ));
                    }
                    mp.push((key, value));
                },
            }
        }
    }

    /// Decodes the value at the decoder's offset. A value starts with `i`,
    /// `l`, `d` or a digit; any other byte, or the end of the input, is a
    /// failure at that offset.
    fn call_element(&mut self, outer: bool) -> (r: Result<Element, InvalidCharError>)
        requires
            old(self).wf(),
            outer ==> old(self).info_ind is None,
        ensures
            final(self).wf(),
            final(self).buf == old(self).buf,
            final(self).strict == old(self).strict,
            decoded_as(
                r,
                final(self).ind as int,
                old(self).buf@,
                old(self).ind as int,
                old(self).strict,
            ),
            !outer ==> final(self).info_ind == old(self).info_ind,
            outer && r is Ok ==> span_of(final(self).info_ind) == (if old(self).buf@[old(
                self,
            ).ind as int] == 100 {
                find_info(old(self).buf@, old(self).ind + 1, old(self).strict)
            } else {
                None
            }),
        decreases old(self).buf@.len() - old(self).ind, 0nat,
    {
        let at: usize = self.ind;
        match self.read_char() {
            None => Err(self.fault_at(at)),
            Some(c) => {
                if c == 100 {
                    self.read_dict(outer)
                } else if c >= 48 && c <= 57 {
                    self.read_byte_string()
                } else if c == 108 {
                    self.read_list()
                } else if c == 105 {
                    self.read_int()
                } else {
                    Err(InvalidCharError { index: at, curr: self.get_char() })
                }
            },
        }
    }

    /// The SHA-1 digest of the bytes of the `info` value that the decoder
    /// has seen, or of no bytes where it has seen none.
    fn calculate_hash(&self) -> (hash: [u8; 20])
        requires
            self.info_ind matches Some((from, to)) ==> from <= to <= self.buf@.len(),
        ensures
            hash@ == sha1(
                match self.info_ind {
                    Some((from, to)) => self.buf@.subrange(from as int, to as int),
                    None => Seq::empty(),
                },
            ),
    {
        match self.info_ind {
            Some((from, to)) => sha1_digest(
                vstd::slice::slice_subrange(self.buf.as_slice(), from, to),
            ),
            None => {
                let none: Vec<u8> = Vec::new();
                sha1_digest(none.as_slice())
            },
        }
    }

    /// Decodes the value that `buf` starts with and returns it with the
    /// info hash: the SHA-1 digest of the bytes that make up the value of
    /// the key `info` in the outer mapping, exactly as they stand in `buf`.
    /// Bytes after the value are not looked at.
    pub fn decode(buf: Vec<u8>) -> (r: Result<(Element, [u8; 20]), InvalidCharError>)
        ensures
            match parse_value(buf@, 0, false) {
                Ok((v, next)) => r matches Ok((e, hash)) && e@ == v && hash@ == sha1(
                    info_bytes(buf@, false),
                ),
                Err(fault) => r == Err::<(Element, [u8; 20]), InvalidCharError>(fault),
            },
    {
        Bencode::decode_with(buf, false)
    }

    /// Decodes as `decode` does, and with `strict` takes integers and
    /// lengths only as the encoder writes them: without leading zeros, and
    /// no `-0`.
    pub fn decode_with(buf: Vec<u8>, strict: bool) -> (r: Result<
        (Element, [u8; 20]),
        InvalidCharError,
    >)
        ensures
            match parse_value(buf@, 0, strict) {
                Ok((v, next)) => r matches Ok((e, hash)) && e@ == v && hash@ == sha1(
                    info_bytes(buf@, strict),
                ),
                Err(fault) => r == Err::<(Element, [u8; 20]), InvalidCharError>(fault),
            },
    {
        let mut instance = Bencode::with_mode(buf, strict);
        match instance.call_element(true) {
            Ok(e) => {
                proof {
                    lemma_info_within(buf@, 1, strict);
                }
                let hash = instance.calculate_hash();
                Ok((e, hash))
            },
            Err(e) => Err(e),
        }
    }

    /// Decodes the value that `buf` starts with and returns it with the
    /// span of the value of the key `info` in the outer mapping: the offset
    /// at which that value starts and the offset after it.
    pub fn decode_span(buf: Vec<u8>) -> (r: Result<
        (Element, Option<(usize, usize)>),
        InvalidCharError,
    >)
        ensures
            match parse_value(buf@, 0, false) {
                Ok((v, next)) => r matches Ok((e, span)) && e@ == v && span_of(span) == info_span(
                    buf@,
                    false,
                ),
                Err(fault) => r == Err::<(Element, Option<(usize, usize)>), InvalidCharError>(
                    fault,
                ),
            },
    {
        let mut instance = Bencode::new(buf);
        match instance.call_element(true) {
            Ok(e) => Ok((e, instance.info_ind)),
            Err(e) => Err(e),
        }
    }

    /// Decodes the value that `buf` starts with. Bytes after the value are
    /// not looked at.
    pub fn decode_u8(buf: Vec<u8>) -> (r: Result<Element, InvalidCharError>)
        ensures
            match parse_value(buf@, 0, false) {
                Ok((v, next)) => r matches Ok(e) && e@ == v,
                Err(fault) => r == Err::<Element, InvalidCharError>(fault),
            },
    {
        let mut instance = Bencode::new(buf);
        instance.call_element(false)
    }

    /// Decodes as `decode_u8` does, and with `strict` takes integers and
    /// lengths only as the encoder writes them.
    pub fn decode_u8_with(buf: Vec<u8>, strict: bool) -> (r: Result<Element, InvalidCharError>)
        ensures
            match parse_value(buf@, 0, strict) {
                Ok((v, next)) => r matches Ok(e) && e@ == v,
                Err(fault) => r == Err::<Element, InvalidCharError>(fault),
            },
    {
        let mut instance = Bencode::with_mode(buf, strict);
        instance.call_element(false)
    }
}

/// The span of the `info` value lies within the input.
proof fn lemma_info_within(s: Seq<u8>, pos: int, strict: bool)
    requires
        0 <= pos,
    ensures
        find_info(s, pos, strict) matches Some((from, to)) ==> pos <= from <= to <= s.len(),
    decreases s.len() - pos,
{
    if 0 <= pos < s.len() && is_digit(s[pos]) {
        match parse_bytes(s, pos, strict) {
            Ok((key, at)) => {
                lemma_parse_advances(s, at, strict);
                match parse_value(s, at, strict) {
                    Ok((v, next)) => {
                        if key != info_key() && at < next <= s.len() {
                            lemma_info_within(s, next, strict);
                        }
                    },
                    Err(e) => {},
                }
            },
            Err(e) => {},
        }
    }
}

/// The decimal digits of `n`, without leading zeros.
pub open spec fn digits(n: nat) -> Seq<u8>
    decreases n,
{
    if n < 10 {
        seq![(48 + n) as u8]
    } else {
        digits(n / 10).push((48 + n % 10) as u8)
    }
}

/// The encoding of an integer: `i`, the number in decimal, `e`.
pub open spec fn encoded_int(i: int) -> Seq<u8> {
    if i < 0 {
        seq![105u8, 45u8] + digits((-i) as nat) + seq![101u8]
    } else {
        seq![105u8] + digits(i as nat) + seq![101u8]
    }
}

/// The encoding of a byte string: its length in decimal, `:`, its bytes.
pub open spec fn encoded_bytes(b: Seq<u8>) -> Seq<u8> {
    digits(b.len()) + seq![58u8] + b
}

/// The encoding of a value. The entries of a mapping are written in the
/// order in which the value holds them.
pub open spec fn encoded(v: Value) -> Seq<u8>
    decreases v, 0nat,
{
    match v {
        Value::Integer(i) => encoded_int(i),
        Value::ByteString(b) => encoded_bytes(b),
        Value::List(items) => seq![108u8] + encoded_items(items, items.len()) + seq![101u8],
        Value::Dict(entries) => seq![100u8] + encoded_entries(entries, entries.len()) + seq![
            101u8,
        ],
    }
}

/// The encodings of the first `n` of `items`, one after the other.
pub open spec fn encoded_items(items: Seq<Value>, n: nat) -> Seq<u8>
    decreases items, n,
{
    if n == 0 || n > items.len() {
        Seq::empty()
    } else {
        encoded_items(items, (n - 1) as nat) + encoded(items[n - 1])
    }
}

/// The encodings of the first `n` of `entries`, key and value, one after
/// the other.
pub open spec fn encoded_entries(entries: Seq<(Seq<u8>, Value)>, n: nat) -> Seq<u8>
    decreases entries, n,
{
    if n == 0 || n > entries.len() {
        Seq::empty()
    } else {
        encoded_entries(entries, (n - 1) as nat) + encoded_bytes(entries[n - 1].0) + encoded(
            entries[n - 1].1,
        )
    }
}

/// Appends the decimal digits of `n`.
fn push_decimal(out: &mut Vec<u8>, n: u64)
    ensures
        final(out)@ == old(out)@ + digits(n as nat),
    decreases n,
{
    if n < 10 {
        out.push(48 + n as u8);
    } else {
        push_decimal(out, n / 10);
        out.push(48 + (n % 10) as u8);
    }
}

/// Appends the encoding of a byte string.
fn push_bytes(out: &mut Vec<u8>, b: &Vec<u8>)
    ensures
        final(out)@ == old(out)@ + encoded_bytes(b@),
{
    push_decimal(out, b.len() as u64);
    out.push(58);
    out.extend_from_slice(b.as_slice());
}

impl Bencode {
    /// Appends the encoding of `decoded`.
    fn encode_into(out: &mut Vec<u8>, decoded: &Element)
        ensures
            final(out)@ == old(out)@ + encoded(decoded@),
        decreases decoded,
    {
        match decoded {
            Element::ByteString(b) => {
                push_bytes(out, b);
            },
            Element::Dict(mp) => {
                proof {
                    lemma_dict_view(*mp);
                }
                let ghost entries = entry_views(mp@);
                out.push(100);
                let mut i: usize = 0;
                while i < mp.len()
                    invariant
                        i <= mp@.len(),
                        entries == entry_views(mp@),
                        decoded == Element::Dict(*mp),
                        out@ == old(out)@ + seq![100u8] + encoded_entries(entries, i as nat),
                    decreases mp@.len() - i,
                {
                    push_bytes(out, &mp[i].0);
                    assert(decreases_to!(decoded => decoded->Dict_0));
                    Bencode::encode_into(out, &mp[i].1);
                    i += 1;
                }
                out.push(101);
            },
            Element::Integer(i) => {
                out.push(105);
                if *i < 0 {
                    out.push(45);
                    let magnitude: u64 = if *i == i64::MIN {
                        0x8000_0000_0000_0000
                    } else {
                        (-*i) as u64
                    };
                    push_decimal(out, magnitude);
                } else {
                    push_decimal(out, *i as u64);
                }
                out.push(101);
            },
            Element::List(l) => {
                proof {
                    lemma_list_view(*l);
                }
                let ghost items = views(l@);
                out.push(108);
                let mut i: usize = 0;
                while i < l.len()
                    invariant
                        i <= l@.len(),
                        items == views(l@),
                        decoded == Element::List(*l),
                        out@ == old(out)@ + seq![108u8] + encoded_items(items, i as nat),
                    decreases l@.len() - i,
                {
                    assert(decreases_to!(decoded => decoded->List_0));
                    Bencode::encode_into(out, &l[i]);
                    i += 1;
                }
                out.push(101);
            },
        }
    }

    /// Encodes a value: integers as `i`, the number in decimal and `e`;
    /// byte strings as the length in decimal, `:` and the bytes; lists and
    /// mappings between `l` or `d` and `e`. The bytes of keys and strings
    /// are written as they are, whatever they hold.
    pub fn encode(decoded: &Element) -> (out: Vec<u8>)
        ensures
            out@ == encoded(decoded@),
    {
        let mut out: Vec<u8> = Vec::new();
        Bencode::encode_into(&mut out, decoded);
        out
    }
}

/// Whether no two of `entries` have the same key.
pub open spec fn distinct_keys(entries: Seq<(Seq<u8>, Value)>) -> bool {
    forall|a: int, b: int|
        0 <= a < b < entries.len() ==> (#[trigger] entries[a]).0 != (#[trigger] entries[b]).0
}

/// Whether a value can stand in an `Element` that the decoder gives: its
/// integers fit in 64 bits and no mapping has a key twice.
pub open spec fn valid(v: Value) -> bool
    decreases v,
{
    match v {
        Value::Integer(i) => -0x8000_0000_0000_0000 <= i <= 0x7fff_ffff_ffff_ffff,
        Value::ByteString(b) => true,
        Value::List(items) => forall|k: int| 0 <= k < items.len() ==> valid(#[trigger] items[k]),
        Value::Dict(entries) => {
            &&& forall|k: int| 0 <= k < entries.len() ==> valid((#[trigger] entries[k]).1)
            &&& distinct_keys(entries)
        },
    }
}

/// Whether `x` is written canonically: it is one value, with integers and
/// lengths without leading zeros and no `-0`, and nothing after it. These
/// are the buffers that decode in strict mode to their very end.
pub open spec fn canonical(x: Seq<u8>) -> bool {
    parse_value(x, 0, true) matches Ok((v, next)) && next == x.len()
}

/// Whether the bytes `t` stand in `s` at offset `p`.
pub open spec fn occurs(s: Seq<u8>, p: int, t: Seq<u8>) -> bool {
    &&& 0 <= p
    &&& p + t.len() <= s.len()
    &&& forall|k: int| 0 <= k < t.len() ==> s[p + k] == #[trigger] t[k]
}

proof fn lemma_digits(n: nat)
    ensures
        digits(n).len() >= 1,
        forall|k: int| 0 <= k < digits(n).len() ==> is_digit(#[trigger] digits(n)[k]),
    decreases n,
{
    if n >= 10 {
        lemma_digits(n / 10);
    }
}

proof fn lemma_digits_lead(n: nat)
    ensures
        n >= 1 ==> digits(n)[0] != 48,
        n == 0 ==> digits(n).len() == 1,
    decreases n,
{
    if n >= 10 {
        lemma_digits_lead(n / 10);
        lemma_digits(n / 10);
    }
}

proof fn lemma_digit_run(s: Seq<u8>, p: int, t: Seq<u8>, k: int)
    requires
        occurs(s, p, t),
        forall|i: int| 0 <= i < t.len() ==> is_digit(#[trigger] t[i]),
        p + t.len() == s.len() || !is_digit(s[p + t.len()]),
        0 <= k <= t.len(),
    ensures
        digit_run(s, p + k) == t.len() - k,
    decreases t.len() - k,
{
    if k < t.len() {
        assert(s[p + k] == t[k]);
        lemma_digit_run(s, p, t, k + 1);
    }
}

proof fn lemma_decimal(s: Seq<u8>, p: int, n: nat)
    requires
        occurs(s, p, digits(n)),
    ensures
        decimal(s, p, p + digits(n).len()) == n,
    decreases n,
{
    let t = digits(n);
    if n < 10 {
        assert(s[p + 0] == t[0]);
        assert(decimal(s, p, p) == 0);
    } else {
        let front = digits(n / 10);
        assert forall|k: int| 0 <= k < front.len() implies s[p + k] == #[trigger] front[k] by {
            assert(t[k] == front[k]);
        }
        lemma_decimal(s, p, n / 10);
        assert(s[p + front.len()] == t[front.len() as int]);
    }
}

proof fn lemma_int_round_trip(s: Seq<u8>, pos: int, i: int, strict: bool)
    requires
        -0x8000_0000_0000_0000 <= i <= 0x7fff_ffff_ffff_ffff,
        occurs(s, pos, encoded_int(i)),
    ensures
        parse_int(s, pos, strict) == Ok::<(int, int), InvalidCharError>(
            (i, pos + encoded_int(i).len()),
        ),
{
    let t = encoded_int(i);
    let m = if i < 0 {
        (-i) as nat
    } else {
        i as nat
    };
    let start = if i < 0 {
        pos + 2
    } else {
        pos + 1
    };
    let d = digits(m);
    lemma_digits(m);
    lemma_digits_lead(m);
    assert(s[start + 0] == d[0]) by {
        assert(s[pos + (start - pos)] == t[start - pos]);
    }
    assert(s[pos + 1] == t[1]);
    assert(is_digit(d[0]));
    assert forall|k: int| 0 <= k < d.len() implies s[start + k] == #[trigger] d[k] by {
        assert(s[pos + (start - pos + k)] == t[start - pos + k]);
    }
    assert(occurs(s, start, d));
    assert(s[start + d.len()] == 101) by {
        assert(s[pos + (start - pos + d.len())] == t[start - pos + d.len()]);
    }
    lemma_digit_run(s, start, d, 0);
    lemma_decimal(s, start, m);
}

proof fn lemma_bytes_round_trip(s: Seq<u8>, pos: int, b: Seq<u8>, strict: bool)
    requires
        occurs(s, pos, encoded_bytes(b)),
    ensures
        parse_bytes(s, pos, strict) == Ok::<(Seq<u8>, int), InvalidCharError>(
            (b, pos + encoded_bytes(b).len()),
        ),
        is_digit(s[pos]),
{
    let t = encoded_bytes(b);
    let d = digits(b.len());
    lemma_digits(b.len());
    lemma_digits_lead(b.len());
    assert forall|k: int| 0 <= k < d.len() implies s[pos + k] == #[trigger] d[k] by {
        assert(s[pos + k] == t[k]);
    }
    assert(occurs(s, pos, d));
    assert(s[pos + d.len()] == 58) by {
        assert(s[pos + d.len()] == t[d.len() as int]);
    }
    assert(s[pos + 0] == d[0]);
    lemma_digit_run(s, pos, d, 0);
    lemma_decimal(s, pos, b.len());
    let end = pos + d.len();
    assert(s.subrange(end + 1, end + 1 + b.len()) =~= b) by {
        assert forall|k: int| 0 <= k < b.len() implies s[end + 1 + k] == b[k] by {
            assert(s[pos + (d.len() + 1 + k)] == t[d.len() + 1 + k]);
        }
    }
}

proof fn lemma_encoded_head(v: Value)
    ensures
        encoded(v).len() >= 2,
        encoded(v)[0] != 101,
        encoded(v)[0] == 105 || encoded(v)[0] == 108 || encoded(v)[0] == 100 || is_digit(
            encoded(v)[0],
        ),
        v is Integer <==> encoded(v)[0] == 105,
        v is List <==> encoded(v)[0] == 108,
        v is Dict <==> encoded(v)[0] == 100,
        v is ByteString <==> is_digit(encoded(v)[0]),
{
    match v {
        Value::Integer(i) => {
            lemma_digits((-i) as nat);
            lemma_digits(i as nat);
        },
        Value::ByteString(b) => {
            lemma_digits(b.len());
            assert(encoded(v)[0] == digits(b.len())[0]);
        },
        Value::List(items) => {},
        Value::Dict(entries) => {},
    }
}

proof fn lemma_items_prefix(items: Seq<Value>, k: nat, n: nat)
    requires
        k <= n <= items.len(),
    ensures
        encoded_items(items, k).len() <= encoded_items(items, n).len(),
        forall|i: int|
            0 <= i < encoded_items(items, k).len() ==> encoded_items(items, n)[i]
                == #[trigger] encoded_items(items, k)[i],
    decreases n - k,
{
    if k < n {
        lemma_items_prefix(items, k, (n - 1) as nat);
    }
}

proof fn lemma_entries_prefix(entries: Seq<(Seq<u8>, Value)>, k: nat, n: nat)
    requires
        k <= n <= entries.len(),
    ensures
        encoded_entries(entries, k).len() <= encoded_entries(entries, n).len(),
        forall|i: int|
            0 <= i < encoded_entries(entries, k).len() ==> encoded_entries(entries, n)[i]
                == #[trigger] encoded_entries(entries, k)[i],
    decreases n - k,
{
    if k < n {
        lemma_entries_prefix(entries, k, (n - 1) as nat);
    }
}

/// A valid value that stands encoded at `pos` of `s` decodes there to
/// itself, and decoding stops right after it.
pub proof fn lemma_value_round_trip(s: Seq<u8>, pos: int, v: Value, strict: bool)
    requires
        valid(v),
        occurs(s, pos, encoded(v)),
    ensures
        parse_value(s, pos, strict) == Ok::<(Value, int), InvalidCharError>(
            (v, pos + encoded(v).len()),
        ),
    decreases v, 0nat,
{
    lemma_encoded_head(v);
    let t = encoded(v);
    assert(s[pos + 0] == t[0]);
    match v {
        Value::Integer(i) => {
            lemma_int_round_trip(s, pos, i, strict);
        },
        Value::ByteString(b) => {
            lemma_bytes_round_trip(s, pos, b, strict);
        },
        Value::List(items) => {
            let body = encoded_items(items, items.len());
            assert forall|k: int| 0 <= k < body.len() implies s[pos + 1 + k]
                == #[trigger] body[k] by {
                assert(s[pos + (1 + k)] == t[1 + k]);
            }
            assert(s[pos + 1 + body.len()] == 101) by {
                assert(s[pos + (1 + body.len())] == t[1 + body.len() as int]);
            }
            lemma_items_round_trip(s, pos + 1, items, 0, strict);
            assert(items.take(0) =~= Seq::<Value>::empty());
        },
        Value::Dict(entries) => {
            let body = encoded_entries(entries, entries.len());
            assert forall|k: int| 0 <= k < body.len() implies s[pos + 1 + k]
                == #[trigger] body[k] by {
                assert(s[pos + (1 + k)] == t[1 + k]);
            }
            assert(s[pos + 1 + body.len()] == 101) by {
                assert(s[pos + (1 + body.len())] == t[1 + body.len() as int]);
            }
            lemma_entries_round_trip(s, pos + 1, entries, 0, strict);
            assert(entries.take(0) =~= Seq::<(Seq<u8>, Value)>::empty());
        },
    }
}

proof fn lemma_items_round_trip(s: Seq<u8>, base: int, items: Seq<Value>, k: nat, strict: bool)
    requires
        forall|i: int| 0 <= i < items.len() ==> valid(#[trigger] items[i]),
        occurs(s, base, encoded_items(items, items.len())),
        base + encoded_items(items, items.len()).len() < s.len(),
        s[base + encoded_items(items, items.len()).len()] == 101,
        k <= items.len(),
    ensures
        parse_items(s, base + encoded_items(items, k).len(), items.take(k as int), strict) == Ok::<
            (Seq<Value>, int),
            InvalidCharError,
        >((items, base + encoded_items(items, items.len()).len() + 1)),
    decreases items, items.len() - k,
{
    let n = items.len();
    let whole = encoded_items(items, n);
    let p = base + encoded_items(items, k).len();
    lemma_items_prefix(items, k, n);
    if k == n {
        assert(items.take(k as int) =~= items);
    } else {
        let item = items[k as int];
        let t = encoded(item);
        lemma_encoded_head(item);
        lemma_items_prefix(items, k + 1, n);
        let upto = encoded_items(items, k + 1);
        assert(upto == encoded_items(items, k) + t);
        assert forall|i: int| 0 <= i < t.len() implies s[p + i] == #[trigger] t[i] by {
            let at = encoded_items(items, k).len() + i;
            assert(upto[at] == t[i]);
            assert(whole[at] == upto[at]);
            assert(s[base + at] == whole[at]);
        }
        assert(occurs(s, p, t));
        assert(s[p + 0] == t[0]);
        lemma_value_round_trip(s, p, item, strict);
        assert(items.take(k as int).push(item) =~= items.take(k as int + 1));
        lemma_items_round_trip(s, base, items, k + 1, strict);
    }
}

proof fn lemma_entries_round_trip(
    s: Seq<u8>,
    base: int,
    entries: Seq<(Seq<u8>, Value)>,
    k: nat,
    strict: bool,
)
    requires
        forall|i: int| 0 <= i < entries.len() ==> valid((#[trigger] entries[i]).1),
        distinct_keys(entries),
        occurs(s, base, encoded_entries(entries, entries.len())),
        base + encoded_entries(entries, entries.len()).len() < s.len(),
        s[base + encoded_entries(entries, entries.len()).len()] == 101,
        k <= entries.len(),
    ensures
        parse_entries(
            s,
            base + encoded_entries(entries, k).len(),
            entries.take(k as int),
            strict,
        ) == Ok::<
            (Seq<(Seq<u8>, Value)>, int),
            InvalidCharError,
        >((entries, base + encoded_entries(entries, entries.len()).len() + 1)),
    decreases entries, entries.len() - k,
{
    let n = entries.len();
    let whole = encoded_entries(entries, n);
    let done = encoded_entries(entries, k);
    let p = base + done.len();
    lemma_entries_prefix(entries, k, n);
    if k == n {
        assert(entries.take(k as int) =~= entries);
    } else {
        let key = entries[k as int].0;
        let value = entries[k as int].1;
        let tk = encoded_bytes(key);
        let tv = encoded(value);
        lemma_encoded_head(value);
        lemma_entries_prefix(entries, k + 1, n);
        let upto = encoded_entries(entries, k + 1);
        assert(upto == done + tk + tv);
        assert forall|i: int| 0 <= i < tk.len() implies s[p + i] == #[trigger] tk[i] by {
            let at = done.len() + i;
            assert(upto[at] == tk[i]);
            assert(whole[at] == upto[at]);
            assert(s[base + at] == whole[at]);
        }
        assert(occurs(s, p, tk));
        lemma_bytes_round_trip(s, p, key, strict);
        let q = p + tk.len();
        assert forall|i: int| 0 <= i < tv.len() implies s[q + i] == #[trigger] tv[i] by {
            let at = done.len() + tk.len() + i;
            assert(upto[at] == tv[i]);
            assert(whole[at] == upto[at]);
            assert(s[base + at] == whole[at]);
        }
        assert(occurs(s, q, tv));
        lemma_value_round_trip(s, q, value, strict);
        assert(!has_key(entries.take(k as int), key)) by {
            if has_key(entries.take(k as int), key) {
                let a = choose|a: int|
                    0 <= a < entries.take(k as int).len() && (#[trigger] entries.take(
                        k as int,
                    )[a]).0 == key;
                assert(entries[a].0 == entries[k as int].0);
            }
        }
        assert(entries.take(k as int).push((key, value)) =~= entries.take(k as int + 1));
        lemma_entries_round_trip(s, base, entries, k + 1, strict);
    }
}

proof fn lemma_run_digits(s: Seq<u8>, p: int, k: int)
    requires
        0 <= k < digit_run(s, p),
    ensures
        0 <= p + k < s.len(),
        is_digit(s[p + k]),
    decreases k,
{
    if k > 0 {
        lemma_run_digits(s, p + 1, k - 1);
    }
}

proof fn lemma_decimal_positive(s: Seq<u8>, a: int, b: int)
    requires
        a < b,
        s[a] > 48,
        forall|k: int| a <= k < b ==> is_digit(#[trigger] s[k]),
    ensures
        decimal(s, a, b) >= 1,
    decreases b - a,
{
    if b - 1 > a {
        lemma_decimal_positive(s, a, b - 1);
    } else {
        assert(decimal(s, a, a) == 0);
    }
    assert(is_digit(s[b - 1]));
}

proof fn lemma_digits_of_decimal(s: Seq<u8>, a: int, b: int)
    requires
        0 <= a < b <= s.len(),
        forall|k: int| a <= k < b ==> is_digit(#[trigger] s[k]),
        !leading_zero(s, a, b),
    ensures
        digits(decimal(s, a, b)) == s.subrange(a, b),
    decreases b - a,
{
    assert(is_digit(s[b - 1]));
    assert(is_digit(s[a]));
    if b == a + 1 {
        assert(decimal(s, a, a) == 0);
        assert(digits(decimal(s, a, b)) =~= s.subrange(a, b));
    } else {
        lemma_digits_of_decimal(s, a, b - 1);
        lemma_decimal_positive(s, a, b - 1);
        let m = decimal(s, a, b - 1);
        let d = (s[b - 1] - 48) as nat;
        let n = decimal(s, a, b);
        assert(n == m * 10 + d);
        assert(n / 10 == m && n % 10 == d);
        assert(digits(n) == digits(m).push((48 + d) as u8));
        assert(s.subrange(a, b - 1).push(s[b - 1]) =~= s.subrange(a, b));
    }
}

proof fn lemma_strict_int(s: Seq<u8>, pos: int)
    requires
        0 <= pos < s.len(),
        s[pos] == 105,
    ensures
        parse_int(s, pos, true) matches Ok((i, next)) ==> {
            &&& -0x8000_0000_0000_0000 <= i <= 0x7fff_ffff_ffff_ffff
            &&& pos < next <= s.len()
            &&& encoded_int(i) == s.subrange(pos, next)
        },
{
    match parse_int(s, pos, true) {
        Ok((i, next)) => {
            let negative = pos + 1 < s.len() && s[pos + 1] == 45;
            let start = if negative {
                pos + 2
            } else {
                pos + 1
            };
            let end = start + digit_run(s, start);
            assert forall|k: int| start <= k < end implies is_digit(#[trigger] s[k]) by {
                lemma_run_digits(s, start, k - start);
            }
            lemma_digits_of_decimal(s, start, end);
            let d = digits(decimal(s, start, end));
            if negative {
                assert(seq![105u8, 45u8] + d + seq![101u8] =~= s.subrange(pos, next));
            } else {
                assert(seq![105u8] + d + seq![101u8] =~= s.subrange(pos, next));
            }
        },
        Err(e) => {},
    }
}

proof fn lemma_strict_bytes(s: Seq<u8>, pos: int)
    requires
        0 <= pos < s.len(),
        is_digit(s[pos]),
    ensures
        parse_bytes(s, pos, true) matches Ok((b, next)) ==> {
            &&& pos < next <= s.len()
            &&& encoded_bytes(b) == s.subrange(pos, next)
        },
{
    match parse_bytes(s, pos, true) {
        Ok((b, next)) => {
            let end = pos + digit_run(s, pos);
            assert forall|k: int| pos <= k < end implies is_digit(#[trigger] s[k]) by {
                lemma_run_digits(s, pos, k - pos);
            }
            lemma_digits_of_decimal(s, pos, end);
            assert(digits(b.len()) + seq![58u8] + b =~= s.subrange(pos, next));
        },
        Err(e) => {},
    }
}

proof fn lemma_items_same(a: Seq<Value>, b: Seq<Value>, n: nat)
    requires
        n <= a.len(),
        n <= b.len(),
        forall|i: int| 0 <= i < n ==> a[i] == b[i],
    ensures
        encoded_items(a, n) == encoded_items(b, n),
    decreases n,
{
    if n > 0 {
        lemma_items_same(a, b, (n - 1) as nat);
    }
}

proof fn lemma_entries_same(a: Seq<(Seq<u8>, Value)>, b: Seq<(Seq<u8>, Value)>, n: nat)
    requires
        n <= a.len(),
        n <= b.len(),
        forall|i: int| 0 <= i < n ==> a[i] == b[i],
    ensures
        encoded_entries(a, n) == encoded_entries(b, n),
    decreases n,
{
    if n > 0 {
        lemma_entries_same(a, b, (n - 1) as nat);
    }
}

/// What decodes in strict mode is written as the encoder writes it: the
/// decoded value is valid, and its encoding is the very bytes that it was
/// decoded from.
pub proof fn lemma_strict_canonical(s: Seq<u8>, pos: int)
    ensures
        parse_value(s, pos, true) matches Ok((v, next)) ==> {
            &&& valid(v)
            &&& 0 <= pos < next <= s.len()
            &&& encoded(v) == s.subrange(pos, next)
        },
    decreases s.len() - pos, 0nat,
{
    if 0 <= pos < s.len() {
        if s[pos] == 105 {
            lemma_strict_int(s, pos);
        } else if is_digit(s[pos]) {
            lemma_strict_bytes(s, pos);
        } else if s[pos] == 108 {
            assert(encoded_items(Seq::<Value>::empty(), 0) =~= s.subrange(pos + 1, pos + 1));
            lemma_strict_items(s, pos + 1, pos + 1, Seq::empty());
            match parse_items(s, pos + 1, Seq::empty(), true) {
                Ok((items, next)) => {
                    assert(seq![108u8] + encoded_items(items, items.len()) + seq![101u8]
                        =~= s.subrange(pos, next));
                },
                Err(e) => {},
            }
        } else if s[pos] == 100 {
            assert(encoded_entries(Seq::<(Seq<u8>, Value)>::empty(), 0) =~= s.subrange(
                pos + 1,
                pos + 1,
            ));
            lemma_strict_entries(s, pos + 1, pos + 1, Seq::empty());
            match parse_entries(s, pos + 1, Seq::empty(), true) {
                Ok((entries, next)) => {
                    assert(seq![100u8] + encoded_entries(entries, entries.len()) + seq![101u8]
                        =~= s.subrange(pos, next));
                },
                Err(e) => {},
            }
        }
    }
}

proof fn lemma_strict_items(s: Seq<u8>, start: int, pos: int, acc: Seq<Value>)
    requires
        0 <= start <= pos,
        encoded_items(acc, acc.len()) == s.subrange(start, pos),
        forall|i: int| 0 <= i < acc.len() ==> valid(#[trigger] acc[i]),
    ensures
        parse_items(s, pos, acc, true) matches Ok((items, next)) ==> {
            &&& pos < next <= s.len()
            &&& s[next - 1] == 101
            &&& encoded_items(items, items.len()) == s.subrange(start, next - 1)
            &&& forall|i: int| 0 <= i < items.len() ==> valid(#[trigger] items[i])
        },
    decreases s.len() - pos, 1nat,
{
    if 0 <= pos < s.len() && s[pos] != 101 {
        match parse_value(s, pos, true) {
            Ok((v, next)) => {
                lemma_strict_canonical(s, pos);
                let more = acc.push(v);
                lemma_items_same(more, acc, acc.len());
                assert(encoded_items(more, more.len()) == encoded_items(acc, acc.len()) + encoded(
                    v,
                ));
                assert(s.subrange(start, pos) + s.subrange(pos, next) =~= s.subrange(start, next));
                assert forall|i: int| 0 <= i < more.len() implies valid(#[trigger] more[i]) by {
                    if i < acc.len() {
                        assert(more[i] == acc[i]);
                    }
                }
                lemma_strict_items(s, start, next, more);
            },
            Err(e) => {},
        }
    }
}

proof fn lemma_strict_entries(s: Seq<u8>, start: int, pos: int, acc: Seq<(Seq<u8>, Value)>)
    requires
        0 <= start <= pos,
        encoded_entries(acc, acc.len()) == s.subrange(start, pos),
        forall|i: int| 0 <= i < acc.len() ==> valid((#[trigger] acc[i]).1),
        distinct_keys(acc),
    ensures
        parse_entries(s, pos, acc, true) matches Ok((entries, next)) ==> {
            &&& pos < next <= s.len()
            &&& s[next - 1] == 101
            &&& encoded_entries(entries, entries.len()) == s.subrange(start, next - 1)
            &&& forall|i: int| 0 <= i < entries.len() ==> valid((#[trigger] entries[i]).1)
            &&& distinct_keys(entries)
        },
    decreases s.len() - pos, 1nat,
{
    if 0 <= pos < s.len() && s[pos] != 101 && is_digit(s[pos]) {
        match parse_bytes(s, pos, true) {
            Ok((key, at)) => {
                lemma_strict_bytes(s, pos);
                if !has_key(acc, key) {
                    match parse_value(s, at, true) {
                        Ok((v, next)) => {
                            lemma_strict_canonical(s, at);
                            let more = acc.push((key, v));
                            lemma_entries_same(more, acc, acc.len());
                            assert(encoded_entries(more, more.len()) == encoded_entries(
                                acc,
                                acc.len(),
                            ) + encoded_bytes(key) + encoded(v));
                            assert(s.subrange(start, pos) + s.subrange(pos, at) + s.subrange(
                                at,
                                next,
                            ) =~= s.subrange(start, next));
                            assert forall|i: int| 0 <= i < more.len() implies valid(
                                (#[trigger] more[i]).1,
                            ) by {
                                if i < acc.len() {
                                    assert(more[i] == acc[i]);
                                }
                            }
                            assert forall|a: int, b: int| 0 <= a < b < more.len() implies (
                            #[trigger] more[a]).0 != (#[trigger] more[b]).0 by {
                                assert(more[a] == acc[a]);
                                if b < acc.len() {
                                    assert(more[b] == acc[b]);
                                } else {
                                    assert(acc[a].0 != key);
                                }
                            }
                            lemma_strict_entries(s, start, next, more);
                        },
                        Err(e) => {},
                    }
                }
            },
            Err(e) => {},
        }
    }
}

/// Decoding and encoding undo each other. The encoding of a valid value
/// decodes, in either mode, to that value and to nothing more. And a
/// canonical buffer, which every encoding with sorted keys is, decodes to a
/// value whose encoding is the buffer again.
pub proof fn lemma_round_trip(v: Value, x: Seq<u8>, strict: bool)
    ensures
        valid(v) ==> parse_value(encoded(v), 0, strict) == Ok::<(Value, int), InvalidCharError>(
            (v, encoded(v).len() as int),
        ),
        valid(v) ==> canonical(encoded(v)),
        canonical(x) ==> (parse_value(x, 0, strict) matches Ok((w, next)) && next == x.len()
            && encoded(w) == x),
{
    if valid(v) {
        lemma_value_round_trip(encoded(v), 0, v, strict);
        lemma_value_round_trip(encoded(v), 0, v, true);
    }
    if canonical(x) {
        lemma_strict_canonical(x, 0);
        let w = parse_value(x, 0, true)->Ok_0.0;
        assert(x.subrange(0, x.len() as int) =~= x);
        lemma_value_round_trip(x, 0, w, strict);
    }
}

proof fn lemma_entries_info(s: Seq<u8>, pos: int, acc: Seq<(Seq<u8>, Value)>, strict: bool)
    requires
        parse_entries(s, pos, acc, strict) is Ok,
        0 <= pos,
    ensures
        ({
            let entries = parse_entries(s, pos, acc, strict)->Ok_0.0;
            &&& acc.len() <= entries.len()
            &&& forall|i: int| 0 <= i < acc.len() ==> entries[i] == acc[i]
            &&& match find_info(s, pos, strict) {
                Some((from, to)) => exists|i: int|
                    {
                        &&& acc.len() <= i < entries.len()
                        &&& (#[trigger] entries[i]).0 == info_key()
                        &&& parse_value(s, from, strict) == Ok::<(Value, int), InvalidCharError>(
                            (entries[i].1, to),
                        )
                        &&& pos < from < to <= s.len()
                    },
                None => forall|i: int|
                    acc.len() <= i < entries.len() ==> (#[trigger] entries[i]).0 != info_key(),
            }
        }),
    decreases s.len() - pos,
{
    if 0 <= pos < s.len() && s[pos] != 101 && is_digit(s[pos]) {
        match parse_bytes(s, pos, strict) {
            Ok((key, at)) => {
                lemma_parse_advances(s, at, strict);
                match parse_value(s, at, strict) {
                    Ok((v, next)) => {
                        let more = acc.push((key, v));
                        lemma_entries_info(s, next, more, strict);
                        let entries = parse_entries(s, next, more, strict)->Ok_0.0;
                        assert(entries[acc.len() as int] == more[acc.len() as int]);
                        assert forall|i: int| 0 <= i < acc.len() implies entries[i] == acc[i] by {
                            assert(entries[i] == more[i]);
                        }
                        if key == info_key() {
                            assert(entries[acc.len() as int].0 == info_key());
                        } else {
                            match find_info(s, next, strict) {
                                Some((from, to)) => {},
                                None => {
                                    assert forall|i: int|
                                        acc.len() <= i < entries.len() implies (
                                    #[trigger] entries[i]).0 != info_key() by {
                                        if i == acc.len() {
                                        }
                                    }
                                },
                            }
                        }
                    },
                    Err(e) => {},
                }
            },
            Err(e) => {},
        }
    }
}

/// The info hash is taken of the very bytes that the value of `info` was
/// decoded from. Where a buffer decodes to a mapping, the recorded span is
/// there exactly if the mapping has the key `info`; the span starts right
/// after that key and decodes, on its own, to the key's value and to
/// nothing more. So where those bytes are canonical they are the encoding
/// of the value: what hashing the bencoded `info` value gives, whatever
/// the order of the other keys.
pub proof fn lemma_info_span(s: Seq<u8>, strict: bool)
    requires
        parse_value(s, 0, strict) matches Ok((v, next)) && v is Dict,
    ensures
        ({
            let entries = parse_value(s, 0, strict)->Ok_0.0->Dict_0;
            match info_span(s, strict) {
                Some((from, to)) => exists|i: int|
                    {
                        &&& 0 <= i < entries.len()
                        &&& (#[trigger] entries[i]).0 == info_key()
                        &&& 0 < from < to <= s.len()
                        &&& info_bytes(s, strict) == s.subrange(from, to)
                        &&& parse_value(s, from, strict) == Ok::<(Value, int), InvalidCharError>(
                            (entries[i].1, to),
                        )
                        &&& canonical(info_bytes(s, strict)) ==> info_bytes(s, strict) == encoded(
                            entries[i].1,
                        )
                    },
                None => !has_key(entries, info_key()) && info_bytes(s, strict).len() == 0,
            }
        }),
{
    lemma_encoded_head(Value::Integer(0));
    assert(s[0] == 100);
    lemma_entries_info(s, 1, Seq::empty(), strict);
    let entries = parse_value(s, 0, strict)->Ok_0.0->Dict_0;
    match info_span(s, strict) {
        Some((from, to)) => {
            let i = choose|i: int|
                {
                    &&& 0 <= i < entries.len()
                    &&& (#[trigger] entries[i]).0 == info_key()
                    &&& parse_value(s, from, strict) == Ok::<(Value, int), InvalidCharError>(
                        (entries[i].1, to),
                    )
                    &&& 1 < from < to <= s.len()
                };
            let x = info_bytes(s, strict);
            if canonical(x) {
                lemma_strict_canonical(x, 0);
                let w = parse_value(x, 0, true)->Ok_0.0;
                assert(x.subrange(0, x.len() as int) =~= x);
                assert(occurs(s, from, encoded(w)));
                lemma_value_round_trip(s, from, w, strict);
            }
        },
        None => {},
    }
}

} // verus!
