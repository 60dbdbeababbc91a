//! Reader of NumPy `.npy` files, format versions 1 and 2.
//!
//! Little-endian binary32 (`<f4`) and 32-bit integer (`<i4`) arrays are read;
//! any other element type is an error.

use vstd::prelude::*;
use vstd::slice::slice_subrange;
use vstd::utf8::{decode_utf8, valid_utf8};

use crate::text::{chars_of, find, find_char, found, joined, next_char, number, padding_skipped,
    parse_number, same, skip_white, trim, trimmed, utf8_text};

verus! {

/// `std::io::Error`, carried through unread.
#[verifier::external_type_specification]
#[verifier::external_body]
pub struct ExIoError(std::io::Error);

/// Errors of the reader. Each names the source that was read.
#[derive(Debug)]
pub enum NpyError {
    /// The first six bytes are not those of an `.npy` file.
    BadMagic(String),
    /// A format version other than 1 and 2.
    UnsupportedVersion { version: u8, context: String },
    /// The elements are not of the type asked for.
    WrongDtype { expected: &'static str, actual: String, context: String },
    /// The header text cannot be read.
    BadHeader { context: String, message: String },
    /// The shape cannot be read, or holds more elements than can be counted.
    BadShape { context: String, message: String },
    /// The bytes ran out: the stream failed with the given error, or ended.
    Io(Option<std::io::Error>, String),
}

/// The model of an [`NpyError`].
pub ghost enum NpyFault {
    BadMagic(Seq<char>),
    UnsupportedVersion(u8, Seq<char>),
    WrongDtype { expected: Seq<char>, actual: Seq<char>, context: Seq<char> },
    BadHeader { context: Seq<char>, message: Seq<char> },
    BadShape { context: Seq<char>, message: Seq<char> },
    Io(Option<std::io::Error>, Seq<char>),
}

impl View for NpyError {
    type V = NpyFault;

    open spec fn view(&self) -> NpyFault {
        match *self {
            NpyError::BadMagic(c) => NpyFault::BadMagic(c@),
            NpyError::UnsupportedVersion { version, context } => NpyFault::UnsupportedVersion(
                version,
                context@,
            ),
            NpyError::WrongDtype { expected, actual, context } => NpyFault::WrongDtype {
                expected: expected@,
                actual: actual@,
                context: context@,
            },
            NpyError::BadHeader { context, message } => NpyFault::BadHeader {
                context: context@,
                message: message@,
            },
            NpyError::BadShape { context, message } => NpyFault::BadShape {
                context: context@,
                message: message@,
            },
            NpyError::Io(e, c) => NpyFault::Io(e, c@),
        }
    }
}

/// The text between quotes that follows `key` in `header`.
pub open spec fn string_value(header: Seq<char>, key: Seq<char>) -> Option<Seq<char>> {
    match found(header, key, 0) {
        None => None,
        Some(i) => {
            let open = padding_skipped(header, i + key.len(), false);
            let close = next_char(header, '\'', open + 1);
            if open < header.len() && header[open] == '\'' && close < header.len() {
                Some(header.subrange(open + 1, close))
            } else {
                None
            }
        },
    }
}

/// The parenthesised text that follows `key` in `header`, with its
/// parentheses.
pub open spec fn tuple_value(header: Seq<char>, key: Seq<char>) -> Option<Seq<char>> {
    match found(header, key, 0) {
        None => None,
        Some(i) => {
            let open = padding_skipped(header, i + key.len(), false);
            let close = next_char(header, ')', open);
            if open < header.len() && header[open] == '(' && close < header.len() {
                Some(header.subrange(open, close + 1))
            } else {
                None
            }
        },
    }
}

/// The text between quotes that follows `key` in `header`.
pub fn extract_string_value(header: &str, key: &str) -> (r: Option<String>)
    ensures
        match r {
            Some(v) => string_value(header@, key@) == Some(v@),
            None => string_value(header@, key@) is None,
        },
{
    let h = chars_of(header);
    let k = chars_of(key);
    let len: usize = h.len();
    match find(&h, &k, 0) {
        None => None,
        Some(i) => {
            let open: usize = skip_white(&h, i + k.len());
            if open == len || h[open] != '\'' {
                return None;
            }
            let close: usize = find_char(&h, '\'', open + 1);
            if close == len {
                return None;
            }
            Some(header.substring_char(open + 1, close).to_owned())
        },
    }
}

/// The parenthesised text that follows `key` in `header`, with its
/// parentheses.
pub fn extract_tuple_value(header: &str, key: &str) -> (r: Option<String>)
    ensures
        match r {
            Some(v) => tuple_value(header@, key@) == Some(v@),
            None => tuple_value(header@, key@) is None,
        },
{
    let h = chars_of(header);
    let k = chars_of(key);
    let len: usize = h.len();
    match find(&h, &k, 0) {
        None => None,
        Some(i) => {
            let open: usize = skip_white(&h, i + k.len());
            if open == len || h[open] != '(' {
                return None;
            }
            let close: usize = find_char(&h, ')', open);
            if close == len {
                return None;
            }
            Some(header.substring_char(open, close + 1).to_owned())
        },
    }
}

/// The numbers in `s` from index `from` on, separated by commas. White space
/// around a number and empty parts do not count. The first part that is no
/// number is the error.
pub open spec fn dims_from(s: Seq<char>, from: int) -> Result<Seq<usize>, Seq<char>>
    decreases s.len() - from,
{
    let end = next_char(s, ',', from);
    let part = trimmed(s.subrange(from, end), false);
    let rest = if from <= end < s.len() {
        dims_from(s, end + 1)
    } else {
        Ok(Seq::empty())
    };
    if part.len() == 0 {
        rest
    } else {
        match number(part) {
            None => Err(part),
            Some(n) => match rest {
                Ok(ns) => Ok(seq![n] + ns),
                Err(e) => Err(e),
            },
        }
    }
}

/// The shape that the parenthesised text `tuple` writes; `1` where it writes
/// nothing.
pub open spec fn shape_of(tuple: Seq<char>) -> Result<Seq<usize>, Seq<char>> {
    let inner = trimmed(tuple, true);
    if inner.len() == 0 {
        Ok(seq![1usize])
    } else {
        dims_from(inner, 0)
    }
}

spec fn after(done: Seq<usize>, rest: Result<Seq<usize>, Seq<char>>) -> Result<
    Seq<usize>,
    Seq<char>,
> {
    match rest {
        Ok(ns) => Ok(done + ns),
        Err(e) => Err(e),
    }
}

fn parse_dims(text: &str) -> (r: Result<Vec<usize>, String>)
    ensures
        match r {
            Ok(v) => dims_from(text@, 0) == Ok::<Seq<usize>, Seq<char>>(v@),
            Err(e) => dims_from(text@, 0) == Err::<Seq<usize>, Seq<char>>(e@),
        },
{
    let s = chars_of(text);
    let len: usize = s.len();
    let mut dims: Vec<usize> = Vec::new();
    let mut from: usize = 0;
    proof {
        match dims_from(text@, 0) {
            Ok(ns) => {
                assert(dims@ + ns =~= ns);
            },
            Err(_) => {},
        }
    }
    loop
        invariant
            s@ == text@,
            s@.len() == len,
            from <= len,
            dims_from(text@, 0) == after(dims@, dims_from(s@, from as int)),
        decreases len - from,
    {
        let end: usize = find_char(&s, ',', from);
        let (lo, hi) = trim(&s, from, end, false);
        let ghost part = trimmed(s@.subrange(from as int, end as int), false);
        assert(s@.subrange(lo as int, hi as int) == part);
        let ghost rest = if end < len {
            dims_from(s@, end + 1)
        } else {
            Ok(Seq::empty())
        };
        if lo < hi {
            match parse_number(&s, lo, hi) {
                None => {
                    return Err(text.substring_char(lo, hi).to_owned());
                },
                Some(n) => {
                    let ghost before = dims@;
                    dims.push(n);
                    proof {
                        match rest {
                            Ok(ns) => {
                                assert(before + (seq![n] + ns) =~= dims@ + ns);
                            },
                            Err(_) => {},
                        }
                    }
                },
            }
        }
        assert(dims_from(text@, 0) == after(dims@, rest));
        if end == len {
            assert(dims@ + Seq::<usize>::empty() =~= dims@);
            return Ok(dims);
        }
        from = end + 1;
    }
}

/// What a header says: the element type and the shape.
pub open spec fn header_of(header: Seq<char>, context: Seq<char>) -> Result<
    (Seq<char>, Seq<usize>),
    NpyFault,
> {
    match (string_value(header, "'descr':"@), tuple_value(header, "'shape':"@)) {
        (None, _) => Err(NpyFault::BadHeader { context, message: "missing 'descr' key"@ }),
        (Some(_), None) => Err(NpyFault::BadHeader { context, message: "missing 'shape' key"@ }),
        (Some(dtype), Some(tuple)) => match shape_of(tuple) {
            Ok(shape) => Ok((dtype, shape)),
            Err(dim) => Err(
                NpyFault::BadShape { context, message: "non-integer dim '"@ + dim + "'"@ },
            ),
        },
    }
}

/// Reads the element type and the shape out of a header such as
/// `{'descr': '<f4', 'fortran_order': False, 'shape': (768, 1024), }`.
pub fn parse_header(header: &str, source: &str) -> (r: Result<(String, Vec<usize>), NpyError>)
    ensures
        match r {
            Ok(h) => header_of(header@, source@) == Ok::<(Seq<char>, Seq<usize>), NpyFault>(
                (h.0@, h.1@),
            ),
            Err(e) => header_of(header@, source@) == Err::<(Seq<char>, Seq<usize>), NpyFault>(e@),
        },
{
    let dtype = match extract_string_value(header, "'descr':") {
        Some(v) => v,
        None => {
            return Err(
                NpyError::BadHeader {
                    context: source.to_owned(),
                    message: "missing 'descr' key".to_owned(),
                },
            );
        },
    };
    let tuple = match extract_tuple_value(header, "'shape':") {
        Some(v) => v,
        None => {
            return Err(
                NpyError::BadHeader {
                    context: source.to_owned(),
                    message: "missing 'shape' key".to_owned(),
                },
            );
        },
    };
    let t = chars_of(tuple.as_str());
    let (lo, hi) = trim(&t, 0, t.len(), true);
    assert(t@.subrange(0, t@.len() as int) =~= tuple@);
    if lo == hi {
        let mut shape: Vec<usize> = Vec::new();
        shape.push(1);
        assert(shape@ =~= seq![1usize]);
        return Ok((dtype, shape));
    }
    let inner = tuple.as_str().substring_char(lo, hi);
    match parse_dims(inner) {
        Ok(shape) => Ok((dtype, shape)),
        Err(dim) => {
            let message = joined(joined("non-integer dim '", dim.as_str()).as_str(), "'");
            Err(NpyError::BadShape { context: source.to_owned(), message })
        },
    }
}

/// The product of the sizes in `shape`.
pub open spec fn product(shape: Seq<usize>) -> nat
    decreases shape.len(),
{
    if shape.len() == 0 {
        1
    } else {
        product(shape.drop_last()) * shape.last() as nat
    }
}

/// Whether the sizes, multiplied from the left, stay within `usize`.
pub open spec fn countable(shape: Seq<usize>) -> bool {
    forall|n: int| 0 <= n <= shape.len() ==> product(#[trigger] shape.take(n)) <= usize::MAX
}

/// How many elements an array of this shape holds: the product of the sizes,
/// which is one where there are none. None where the product does not fit.
pub open spec fn element_count(shape: Seq<usize>) -> Option<usize> {
    if countable(shape) {
        Some(product(shape) as usize)
    } else {
        None
    }
}

/// How many elements an array of this shape holds.
pub fn shape_total(shape: &[usize]) -> (r: Option<usize>)
    ensures
        r == element_count(shape@),
{
    let mut n: usize = 1;
    let mut i: usize = 0;
    while i < shape.len()
        invariant
            i <= shape@.len(),
            n == product(shape@.take(i as int)),
            forall|k: int| 0 <= k <= i ==> product(#[trigger] shape@.take(k)) <= usize::MAX,
        decreases shape@.len() - i,
    {
        let ghost next = shape@.take(i + 1);
        assert(next.drop_last() =~= shape@.take(i as int));
        match n.checked_mul(shape[i]) {
            Some(m) => {
                n = m;
            },
            None => {
                assert(product(next) > usize::MAX);
                return None;
            },
        }
        i = i + 1;
    }
    assert(shape@.take(i as int) =~= shape@);
    Some(n)
}

/// The number that four bytes write, least significant first.
pub open spec fn word(bytes: Seq<u8>, at: int) -> u32 {
    (bytes[at] + 0x100 * bytes[at + 1] + 0x1_0000 * bytes[at + 2] + 0x100_0000 * bytes[at
        + 3]) as u32
}

/// `n` words in a row from `at` on.
pub open spec fn words(bytes: Seq<u8>, at: int, n: nat) -> Seq<u32> {
    Seq::new(n, |i: int| word(bytes, at + 4 * i))
}

/// The integer that a word is in two's complement.
pub open spec fn signed(w: u32) -> i32 {
    if w < 0x8000_0000 {
        w as i32
    } else {
        (w - 0x1_0000_0000) as i32
    }
}

/// `bytemuck::cast` from four bytes to a `u32`, whose native byte order
/// `u32::from_le` then accounts for: the number that the bytes write, least
/// significant first.
#[verifier::external_body]
fn cast_word(bytes: [u8; 4]) -> (w: u32)
    ensures
        w == word(bytes@, 0),
{
    u32::from_le(bytemuck::cast::<[u8; 4], u32>(bytes))
}

/// The integer that a word is in two's complement.
fn to_signed(w: u32) -> (r: i32)
    ensures
        r == signed(w),
{
    if w < 0x8000_0000 {
        w as i32
    } else {
        -((0xffff_ffff - w) as i32) - 1
    }
}

/// What the preamble and the header say: element type, shape, and the index at
/// which the elements begin.
pub open spec fn preamble_of(bytes: Seq<u8>, context: Seq<char>) -> Result<
    (Seq<char>, Seq<usize>, int),
    NpyFault,
> {
    let ended = Err(NpyFault::Io(None, context));
    if bytes.len() < 10 {
        ended
    } else if bytes.take(6) != seq![0x93u8, 0x4e, 0x55, 0x4d, 0x50, 0x59] {
        Err(NpyFault::BadMagic(context))
    } else if bytes[6] != 1 && bytes[6] != 2 {
        Err(NpyFault::UnsupportedVersion(bytes[6], context))
    } else if bytes[6] == 2 && bytes.len() < 12 {
        ended
    } else {
        let start: int = if bytes[6] == 1 {
            10
        } else {
            12
        };
        let len: int = if bytes[6] == 1 {
            bytes[8] + 0x100 * bytes[9]
        } else {
            word(bytes, 8) as int
        };
        let header = bytes.subrange(start, start + len);
        if bytes.len() < start + len {
            ended
        } else if !valid_utf8(header) {
            Err(
                NpyFault::BadHeader { context, message: "header bytes are not valid UTF-8"@ },
            )
        } else {
            match header_of(decode_utf8(header), context) {
                Ok(h) => Ok((h.0, h.1, start + len)),
                Err(e) => Err(e),
            }
        }
    }
}

fn has_magic(bytes: &[u8]) -> (r: bool)
    requires
        bytes@.len() >= 6,
    ensures
        r == (bytes@.take(6) == seq![0x93u8, 0x4e, 0x55, 0x4d, 0x50, 0x59]),
{
    let ghost magic = seq![0x93u8, 0x4e, 0x55, 0x4d, 0x50, 0x59];
    let r = bytes[0] == 0x93 && bytes[1] == 0x4e && bytes[2] == 0x55 && bytes[3] == 0x4d && bytes[4]
        == 0x50 && bytes[5] == 0x59;
    proof {
        if r {
            assert(bytes@.take(6) =~= magic);
        } else {
            assert(exists|i: int| 0 <= i < 6 && #[trigger] bytes@.take(6)[i] != magic[i]) by {
                assert(bytes@.take(6)[0] == bytes@[0]);
                assert(bytes@.take(6)[1] == bytes@[1]);
                assert(bytes@.take(6)[2] == bytes@[2]);
                assert(bytes@.take(6)[3] == bytes@[3]);
                assert(bytes@.take(6)[4] == bytes@[4]);
                assert(bytes@.take(6)[5] == bytes@[5]);
            }
        }
    }
    r
}

/// Reads the preamble and the header: element type, shape, and the index at
/// which the elements begin.
pub fn read_header(bytes: &[u8], source: &str) -> (r: Result<
    (String, Vec<usize>, usize),
    NpyError,
>)
    ensures
        match r {
            Ok(h) => preamble_of(bytes@, source@) == Ok::<(Seq<char>, Seq<usize>, int), NpyFault>(
                (h.0@, h.1@, h.2 as int),
            ) && h.2 <= bytes@.len(),
            Err(e) => preamble_of(bytes@, source@) == Err::<
                (Seq<char>, Seq<usize>, int),
                NpyFault,
            >(e@),
        },
{
    if bytes.len() < 10 {
        return Err(NpyError::Io(None, source.to_owned()));
    }
    if !has_magic(bytes) {
        return Err(NpyError::BadMagic(source.to_owned()));
    }
    let version: u8 = bytes[6];
    let mut start: usize = 10;
    let len: usize;
    if version == 1 {
        len = bytes[8] as usize + 0x100 * (bytes[9] as usize);
    } else if version == 2 {
        if bytes.len() < 12 {
            return Err(NpyError::Io(None, source.to_owned()));
        }
        start = 12;
        len = cast_word([bytes[8], bytes[9], bytes[10], bytes[11]]) as usize;
        assert(len == word(bytes@, 8));
    } else {
        return Err(NpyError::UnsupportedVersion { version, context: source.to_owned() });
    }
    if bytes.len() - start < len {
        return Err(NpyError::Io(None, source.to_owned()));
    }
    match utf8_text(slice_subrange(bytes, start, start + len)) {
        None => Err(
            NpyError::BadHeader {
                context: source.to_owned(),
                message: "header bytes are not valid UTF-8".to_owned(),
            },
        ),
        Some(header) => match parse_header(header.as_str(), source) {
            Ok((dtype, shape)) => Ok((dtype, shape, start + len)),
            Err(e) => Err(e),
        },
    }
}

/// All that reading a source yields: its bytes, and the error that came after
/// them where reading did not reach the end.
#[derive(Debug)]
pub struct ByteStream {
    pub bytes: Vec<u8>,
    pub failure: Option<std::io::Error>,
}

/// How long the header is that the first twelve bytes, or ten in version 1,
/// announce.
pub open spec fn header_len(bytes: Seq<u8>) -> nat {
    if bytes[6] == 1 {
        (bytes[8] + 0x100 * bytes[9]) as nat
    } else {
        word(bytes, 8) as nat
    }
}

/// Whether the preamble that `bytes` begin with is one of a known version.
pub open spec fn is_known(bytes: Seq<u8>) -> bool {
    &&& bytes.len() >= 10
    &&& bytes.take(6) == seq![0x93u8, 0x4e, 0x55, 0x4d, 0x50, 0x59]
    &&& bytes[6] == 1 || bytes[6] == 2
}

/// Up to where the preamble is read, after `bytes` came.
pub open spec fn preamble_end(bytes: Seq<u8>) -> nat {
    if is_known(bytes) && bytes[6] == 2 {
        12
    } else {
        10
    }
}

/// Up to where the header is read, after `bytes` came.
pub open spec fn header_end(bytes: Seq<u8>) -> nat {
    if is_known(bytes) && bytes.len() >= preamble_end(bytes) {
        preamble_end(bytes) + header_len(bytes)
    } else {
        preamble_end(bytes)
    }
}

/// Up to where the elements are read, after `bytes` came, as an array whose
/// element type is `dtype`. None are read where the header is not understood,
/// or says another element type or too many elements.
pub open spec fn data_end(bytes: Seq<u8>, context: Seq<char>, dtype: Seq<char>) -> nat {
    match preamble_of(bytes, context) {
        Ok((actual, shape, start)) => if actual == dtype && element_count(shape) is Some {
            (start + 4 * element_count(shape)->0) as nat
        } else {
            header_end(bytes)
        },
        Err(_) => header_end(bytes),
    }
}

/// The reads that an array of the element type `dtype` takes, by the places
/// that they go up to, as far as `bytes` tell: the first ten bytes, the rest of
/// the preamble, the header, and the elements.
pub open spec fn reads_of(bytes: Seq<u8>, context: Seq<char>, dtype: Seq<char>) -> Seq<nat> {
    seq![10nat, preamble_end(bytes), header_end(bytes), data_end(bytes, context, dtype)]
}

/// The reads that an array takes, as far as `bytes` tell. None where they go
/// further than memory can.
pub fn next_reads(bytes: &[u8], source: &str, dtype: &str) -> (r: Option<[usize; 4]>)
    ensures
        match r {
            Some(ends) => reads_of(bytes@, source@, dtype@) == ends@.map_values(|e: usize| e as nat)
                && ends@[3] <= isize::MAX,
            None => data_end(bytes@, source@, dtype@) > isize::MAX,
        },
{
    let ghost reads = reads_of(bytes@, source@, dtype@);
    let most: u64 = isize::MAX as u64;
    if bytes.len() < 10 || !has_magic(bytes) || (bytes[6] != 1 && bytes[6] != 2) {
        let r: [usize; 4] = [10, 10, 10, 10];
        assert(r@.map_values(|e: usize| e as nat) =~= reads);
        return Some(r);
    }
    let front: usize = if bytes[6] == 1 {
        10
    } else {
        12
    };
    if bytes.len() < front {
        let r: [usize; 4] = [10, front, front, front];
        assert(r@.map_values(|e: usize| e as nat) =~= reads);
        return Some(r);
    }
    let len: u64 = if bytes[6] == 1 {
        bytes[8] as u64 + 0x100 * (bytes[9] as u64)
    } else {
        cast_word([bytes[8], bytes[9], bytes[10], bytes[11]]) as u64
    };
    assert(len == header_len(bytes@));
    let head: u64 = front as u64 + len;
    let mut end: u64 = head;
    if bytes.len() as u64 >= head {
        match read_header(bytes, source) {
            Ok((actual, shape, start)) => {
                if same(actual.as_str(), dtype) {
                    match shape_total(shape.as_slice()) {
                        Some(n) => {
                            let total: u128 = start as u128 + 4 * n as u128;
                            if total > most as u128 {
                                return None;
                            }
                            end = total as u64;
                        },
                        None => {},
                    }
                }
            },
            Err(_) => {},
        }
    }
    if end > most {
        return None;
    }
    let r: [usize; 4] = [10, front, head as usize, end as usize];
    assert(r@.map_values(|e: usize| e as nat) =~= reads);
    Some(r)
}

/// Loaded binary32 elements, as bit patterns, and their row-major shape.
#[derive(Debug)]
pub struct NpyF32 {
    pub data: Vec<u32>,
    pub shape: Vec<usize>,
}

/// Loaded 32-bit integers and their row-major shape.
#[derive(Debug)]
pub struct NpyI32 {
    pub data: Vec<i32>,
    pub shape: Vec<usize>,
}

/// The words and the shape that `stream` holds as an array whose element type
/// is `dtype`.
pub open spec fn array_of(
    stream: ByteStream,
    context: Seq<char>,
    dtype: Seq<char>,
) -> Result<(Seq<u32>, Seq<usize>), NpyFault> {
    let bytes = stream.bytes@;
    let ran_out = Err(NpyFault::Io(stream.failure, context));
    match preamble_of(bytes, context) {
        Err(NpyFault::Io(_, _)) => ran_out,
        Err(e) => Err(e),
        Ok((actual, shape, start)) => {
            if actual != dtype {
                Err(NpyFault::WrongDtype { expected: dtype, actual, context })
            } else {
                match element_count(shape) {
                    None => Err(NpyFault::BadShape { context, message: "too many elements"@ }),
                    Some(n) => {
                        if bytes.len() < start + 4 * n {
                            ran_out
                        } else {
                            Ok((words(bytes, start, n as nat), shape))
                        }
                    },
                }
            }
        },
    }
}

fn read_words(bytes: &[u8], start: usize, n: usize) -> (r: Vec<u32>)
    requires
        start + 4 * n <= bytes@.len(),
    ensures
        r@ == words(bytes@, start as int, n as nat),
{
    let len: usize = bytes.len();
    let mut r: Vec<u32> = Vec::new();
    let mut i: usize = 0;
    while i < n
        invariant
            i <= n,
            start + 4 * n <= bytes@.len(),
            bytes@.len() == len,
            r@ == words(bytes@, start as int, i as nat),
        decreases n - i,
    {
        let at: usize = start + 4 * i;
        let w: u32 = cast_word([bytes[at], bytes[at + 1], bytes[at + 2], bytes[at + 3]]);
        assert(w == word(bytes@, at as int));
        r.push(w);
        i = i + 1;
        assert(r@ =~= words(bytes@, start as int, i as nat));
    }
    r
}

fn read_array(
    stream: ByteStream,
    source: &str,
    dtype: &'static str,
) -> (r: Result<(Vec<u32>, Vec<usize>), NpyError>)
    ensures
        match r {
            Ok(a) => array_of(stream, source@, dtype@) == Ok::<
                (Seq<u32>, Seq<usize>),
                NpyFault,
            >((a.0@, a.1@)),
            Err(e) => array_of(stream, source@, dtype@) == Err::<
                (Seq<u32>, Seq<usize>),
                NpyFault,
            >(e@),
        },
{
    let (actual, shape, start) = match read_header(stream.bytes.as_slice(), source) {
        Ok(h) => h,
        Err(NpyError::Io(_, _)) => {
            return Err(NpyError::Io(stream.failure, source.to_owned()));
        },
        Err(e) => {
            return Err(e);
        },
    };
    if !same(actual.as_str(), dtype) {
        return Err(
            NpyError::WrongDtype { expected: dtype, actual, context: source.to_owned() },
        );
    }
    match shape_total(shape.as_slice()) {
        None => Err(
            NpyError::BadShape {
                context: source.to_owned(),
                message: "too many elements".to_owned(),
            },
        ),
        Some(n) => {
            if (stream.bytes.len() - start) / 4 < n {
                return Err(NpyError::Io(stream.failure, source.to_owned()));
            }
            Ok((read_words(stream.bytes.as_slice(), start, n), shape))
        },
    }
}

/// Reads an `.npy` stream of binary32 elements.
///
/// A shape whose element count does not fit in `usize` is a
/// [`NpyError::BadShape`].
pub fn read_f32(stream: ByteStream, source: &str) -> (r: Result<NpyF32, NpyError>)
    ensures
        match r {
            Ok(a) => array_of(stream, source@, "<f4"@) == Ok::<
                (Seq<u32>, Seq<usize>),
                NpyFault,
            >((a.data@, a.shape@)),
            Err(e) => array_of(stream, source@, "<f4"@) == Err::<
                (Seq<u32>, Seq<usize>),
                NpyFault,
            >(e@),
        },
{
    match read_array(stream, source, "<f4") {
        Ok((data, shape)) => Ok(NpyF32 { data, shape }),
        Err(e) => Err(e),
    }
}

/// The integers that the words `ws` are in two's complement.
pub open spec fn all_signed(ws: Seq<u32>) -> Seq<i32> {
    ws.map_values(|w: u32| signed(w))
}

/// Reads an `.npy` stream of 32-bit integers.
///
/// A shape whose element count does not fit in `usize` is a
/// [`NpyError::BadShape`].
pub fn read_i32(stream: ByteStream, source: &str) -> (r: Result<NpyI32, NpyError>)
    ensures
        match r {
            Ok(a) => array_of(stream, source@, "<i4"@) matches Ok((ws, shape)) && a.data@
                == all_signed(ws) && a.shape@ == shape,
            Err(e) => array_of(stream, source@, "<i4"@) == Err::<
                (Seq<u32>, Seq<usize>),
                NpyFault,
            >(e@),
        },
{
    match read_array(stream, source, "<i4") {
        Ok((ws, shape)) => {
            let mut data: Vec<i32> = Vec::new();
            let mut i: usize = 0;
            while i < ws.len()
                invariant
                    i <= ws@.len(),
                    data@ == all_signed(ws@.take(i as int)),
                decreases ws@.len() - i,
            {
                data.push(to_signed(ws[i]));
                i = i + 1;
                assert(data@ =~= all_signed(ws@.take(i as int)));
            }
            assert(ws@.take(i as int) =~= ws@);
            Ok(NpyI32 { data, shape })
        },
        Err(e) => Err(e),
    }
}

/// An array that was read has as many elements as the product of its sizes.
pub proof fn law_data_fills_the_shape(stream: ByteStream, context: Seq<char>, dtype: Seq<char>)
    ensures
        array_of(stream, context, dtype) matches Ok((ws, shape)) ==> ws.len() == product(shape),
{
    match array_of(stream, context, dtype) {
        Ok((_, shape)) => {
            assert(shape.take(shape.len() as int) =~= shape);
        },
        Err(_) => {},
    }
}

/// An array with a size of zero holds nothing, and reads from a stream that
/// ends with the header.
pub proof fn law_empty_arrays_hold_nothing(
    stream: ByteStream,
    context: Seq<char>,
    dtype: Seq<char>,
    shape: Seq<usize>,
    start: int,
    i: int,
)
    requires
        preamble_of(stream.bytes@, context) == Ok::<(Seq<char>, Seq<usize>, int), NpyFault>(
            (dtype, shape, start),
        ),
        countable(shape),
        0 <= i < shape.len(),
        shape[i] == 0,
    ensures
        product(shape) == 0,
        array_of(stream, context, dtype) == Ok::<(Seq<u32>, Seq<usize>), NpyFault>(
            (Seq::empty(), shape),
        ),
{
    lemma_zero_product(shape, i);
    assert(words(stream.bytes@, start, 0) =~= Seq::empty());
}

proof fn lemma_zero_product(shape: Seq<usize>, i: int)
    requires
        0 <= i < shape.len(),
        shape[i] == 0,
    ensures
        product(shape) == 0,
    decreases shape.len(),
{
    if i < shape.len() - 1 {
        lemma_zero_product(shape.drop_last(), i);
    }
    assert(product(shape.drop_last()) * 0 == 0);
    assert(0 * shape.last() as nat == 0);
}

/// An array without dimensions holds one element.
pub proof fn law_scalars_hold_one_element()
    ensures
        element_count(Seq::empty()) == Some(1usize),
{
    assert forall|n: int| 0 <= n <= Seq::<usize>::empty().len() implies product(
        #[trigger] Seq::<usize>::empty().take(n),
    ) <= usize::MAX by {
        assert(Seq::<usize>::empty().take(n) =~= Seq::<usize>::empty());
    }
}

/// An array of another element type is refused, whatever its elements are.
pub proof fn law_other_element_types_are_refused(
    stream: ByteStream,
    context: Seq<char>,
    dtype: Seq<char>,
)
    requires
        preamble_of(stream.bytes@, context) matches Ok((actual, _, _)) && actual != dtype,
    ensures
        array_of(stream, context, dtype) matches Err(NpyFault::WrongDtype { expected, actual, .. })
            && expected == dtype && actual != dtype,
{
}

proof fn lemma_preamble_settles(a: Seq<u8>, b: Seq<u8>, context: Seq<char>)
    requires
        a.is_prefix_of(b),
        is_known(a),
        header_end(a) <= a.len(),
        preamble_end(a) <= a.len(),
    ensures
        preamble_of(a, context) == preamble_of(b, context),
{
    lemma_fronts_agree(a, b);
    let start = preamble_end(a) as int;
    let end = header_end(a) as int;
    assert(a.subrange(start, end) =~= b.subrange(start, end));
}

/// What of the preamble is there in `a` is the same in what `a` begins.
proof fn lemma_fronts_agree(a: Seq<u8>, b: Seq<u8>)
    requires
        a.is_prefix_of(b),
        a.len() >= 10,
    ensures
        is_known(a) == is_known(b),
        preamble_end(a) == preamble_end(b),
        a.len() >= preamble_end(a) ==> header_end(a) == header_end(b),
        a[6] == b[6],
{
    assert(a.take(6) =~= b.take(6));
    assert(word(a, 8) == word(b, 8) || a.len() < 12);
}

/// The reads of an array go forward.
pub proof fn law_reads_go_forward(bytes: Seq<u8>, context: Seq<char>, dtype: Seq<char>)
    ensures
        10 <= preamble_end(bytes) <= header_end(bytes) <= data_end(bytes, context, dtype),
{
}

/// Bytes that were read tell no other reads than before, as far as they go.
pub proof fn law_reads_stay(a: Seq<u8>, b: Seq<u8>, context: Seq<char>, dtype: Seq<char>)
    requires
        a.is_prefix_of(b),
        a.len() < data_end(a, context, dtype),
        b.len() == data_end(a, context, dtype),
    ensures
        a.len() < 10 ==> reads_of(a, context, dtype) == seq![10nat, 10, 10, 10],
        a.len() >= 10 ==> preamble_end(b) == preamble_end(a),
        a.len() >= preamble_end(a) ==> header_end(b) == header_end(a),
        a.len() >= header_end(a) ==> data_end(b, context, dtype) == data_end(a, context, dtype),
        a.len() < header_end(a) ==> b.len() == header_end(a),
        a.len() < preamble_end(a) ==> b.len() == preamble_end(a),
        a.len() < 10 ==> b.len() == 10,
{
    law_reads_go_forward(a, context, dtype);
    if a.len() >= 10 {
        lemma_fronts_agree(a, b);
        if a.len() >= header_end(a) {
            lemma_preamble_settles(a, b, context);
        }
    } else {
        assert(reads_of(a, context, dtype) =~= seq![10nat, 10, 10, 10]);
    }
}

/// Once no more is to be read, what follows does not matter, nor how the stream
/// ends.
pub proof fn law_settled_reads_are_final(
    stream: ByteStream,
    longer: ByteStream,
    context: Seq<char>,
    dtype: Seq<char>,
)
    requires
        data_end(stream.bytes@, context, dtype) <= stream.bytes@.len(),
        stream.bytes@.is_prefix_of(longer.bytes@),
    ensures
        array_of(longer, context, dtype) == array_of(stream, context, dtype),
        !(array_of(stream, context, dtype) matches Err(NpyFault::Io(_, _))),
{
    let a = stream.bytes@;
    let b = longer.bytes@;
    law_reads_go_forward(a, context, dtype);
    lemma_fronts_agree(a, b);
    assert(a.take(6) =~= b.take(6));
    if is_known(a) {
        lemma_preamble_settles(a, b, context);
        match preamble_of(a, context) {
            Ok((actual, shape, at)) => {
                match element_count(shape) {
                    Some(n) => {
                        if actual == dtype {
                            assert(words(a, at, n as nat) =~= words(b, at, n as nat));
                        }
                    },
                    None => {},
                }
            },
            Err(_) => {},
        }
    }
}

/// A stream that ends before the reads that it tells runs out.
pub proof fn law_short_streams_run_out(
    front: Seq<u8>,
    stream: ByteStream,
    context: Seq<char>,
    dtype: Seq<char>,
)
    requires
        front.is_prefix_of(stream.bytes@),
        stream.bytes@.len() < data_end(front, context, dtype),
    ensures
        array_of(stream, context, dtype) == Err::<(Seq<u32>, Seq<usize>), NpyFault>(
            NpyFault::Io(stream.failure, context),
        ),
{
    let a = front;
    let b = stream.bytes@;
    law_reads_go_forward(a, context, dtype);
    if a.len() >= 10 {
        lemma_fronts_agree(a, b);
        if a.len() >= header_end(a) {
            lemma_preamble_settles(a, b, context);
        }
    }
    assert(b.len() < 10 || b.take(6) == a.take(6)) by {
        if a.len() >= 10 {
            assert(b.take(6) =~= a.take(6));
        }
    }
}

/// What follows the elements does not matter, nor how the stream ends.
pub proof fn law_trailing_bytes_do_not_matter(
    stream: ByteStream,
    longer: ByteStream,
    context: Seq<char>,
    dtype: Seq<char>,
)
    requires
        array_of(stream, context, dtype) is Ok,
        stream.bytes@.is_prefix_of(longer.bytes@),
    ensures
        array_of(longer, context, dtype) == array_of(stream, context, dtype),
{
    law_settled_reads_are_final(stream, longer, context, dtype);
}

} // verus!
