//! What the `.npy` reader makes of the files that NumPy writes.

use vstd::prelude::*;
use vstd::utf8::{encode_utf8, encode_utf8_decode_utf8, encode_utf8_valid_utf8};

use crate::audio2face::npy::{array_of, countable, dims_from, element_count, header_of, preamble_of,
    product, shape_of, signed, string_value, tuple_value, word, words, ByteStream, NpyFault};
use crate::text::{digits_number, digits_of, found, is_padding, is_white, law_digits_write_the_number,
    next_char, number, padding_dropped, padding_skipped, trimmed};
use crate::text_laws::law_trimming_drops_the_padding;

verus! {

/// A word as four bytes, least significant first.
pub open spec fn word_bytes(w: u32) -> Seq<u8> {
    seq![
        (w % 0x100) as u8,
        (w / 0x100 % 0x100) as u8,
        (w / 0x1_0000 % 0x100) as u8,
        (w / 0x100_0000) as u8,
    ]
}

/// Words as bytes, one after the other.
pub open spec fn data_bytes(ws: Seq<u32>) -> Seq<u8> {
    Seq::new(4 * ws.len(), |i: int| word_bytes(ws[i / 4])[i % 4])
}

/// What stands before the header text of `len` bytes.
pub open spec fn preamble_bytes(version: u8, len: nat) -> Seq<u8> {
    let magic = seq![0x93u8, 0x4e, 0x55, 0x4d, 0x50, 0x59];
    let size = word_bytes(len as u32);
    if version == 1 {
        magic + seq![version, 0u8] + size.take(2)
    } else {
        magic + seq![version, 0u8] + size
    }
}

/// A whole file.
pub open spec fn file_bytes(version: u8, header: Seq<char>, ws: Seq<u32>) -> Seq<u8> {
    preamble_bytes(version, encode_utf8(header).len()) + encode_utf8(header) + data_bytes(ws)
}

/// Whether the format version can hold a header text of `len` bytes.
pub open spec fn header_fits(version: u8, len: nat) -> bool {
    version == 1 && len < 0x1_0000 || version == 2 && len < 0x1_0000_0000
}

/// Where the words begin behind a header text of `len` bytes.
pub open spec fn data_at(version: u8, len: nat) -> int {
    preamble_bytes(version, len).len() + len as int
}

proof fn lemma_word_bytes(w: u32)
    ensures
        word(word_bytes(w), 0) == w,
        w < 0x1_0000 ==> word_bytes(w)[0] + 0x100 * word_bytes(w)[1] == w,
{
    let b = word_bytes(w);
    assert(b[0] == w % 0x100);
    assert(b[1] == w / 0x100 % 0x100);
    assert(b[2] == w / 0x1_0000 % 0x100);
    assert(b[3] == w / 0x100_0000);
}

proof fn lemma_preamble(version: u8, header: Seq<char>, ws: Seq<u32>, context: Seq<char>)
    requires
        header_fits(version, encode_utf8(header).len()),
    ensures
        preamble_of(file_bytes(version, header, ws), context) == match header_of(header, context) {
            Ok(h) => Ok::<(Seq<char>, Seq<usize>, int), NpyFault>(
                (
                    h.0,
                    h.1,
                    data_at(version, encode_utf8(header).len()),
                ),
            ),
            Err(e) => Err(e),
        },
{
    let h = encode_utf8(header);
    let front = preamble_bytes(version, h.len());
    let file = file_bytes(version, header, ws);
    let magic = seq![0x93u8, 0x4e, 0x55, 0x4d, 0x50, 0x59];
    let size = word_bytes(h.len() as u32);
    lemma_word_bytes(h.len() as u32);
    encode_utf8_valid_utf8(header);
    encode_utf8_decode_utf8(header);
    assert(file.take(6) =~= magic);
    assert(file[6] == version);
    assert(file[8] == size[0] && file[9] == size[1]);
    if version == 2 {
        assert(file[10] == size[2] && file[11] == size[3]);
    }
    assert(file.subrange(front.len() as int, data_at(version, h.len())) =~= h);
}

/// A file reads back as the words that were written into it, whatever its
/// header says beside the element type and the shape, and whatever follows
/// the words.
pub proof fn law_written_words_read_back(
    version: u8,
    header: Seq<char>,
    dtype: Seq<char>,
    shape: Seq<usize>,
    ws: Seq<u32>,
    rest: Seq<u8>,
    stream: ByteStream,
    context: Seq<char>,
)
    requires
        header_fits(version, encode_utf8(header).len()),
        header_of(header, context) == Ok::<(Seq<char>, Seq<usize>), NpyFault>((dtype, shape)),
        element_count(shape) == Some(ws.len() as usize),
        ws.len() <= usize::MAX,
        stream.bytes@ == file_bytes(version, header, ws) + rest,
    ensures
        array_of(stream, context, dtype) == Ok::<(Seq<u32>, Seq<usize>), NpyFault>(
            (ws, shape),
        ),
{
    let h = encode_utf8(header);
    let front = preamble_bytes(version, h.len());
    let at = data_at(version, h.len());
    let bytes = stream.bytes@;
    let file = file_bytes(version, header, ws);
    lemma_preamble(version, header, ws, context);
    assert(bytes.take(6) =~= file.take(6));
    assert(bytes.subrange(front.len() as int, data_at(version, h.len())) =~= file.subrange(
        front.len() as int,
        data_at(version, h.len()),
    ));
    lemma_word_bytes(h.len() as u32);
    assert(file[8] == front[8] && file[9] == front[9]);
    if version == 2 {
        assert(word(bytes, 8) == word(file, 8));
        assert(file[10] == front[10] && file[11] == front[11]);
    }
    assert(preamble_of(bytes, context) == preamble_of(file, context));
    assert forall|i: int| 0 <= i < ws.len() implies #[trigger] words(
        bytes,
        at,
        ws.len(),
    )[i] == ws[i] by {
        lemma_word_bytes(ws[i]);
        let data = data_bytes(ws);
        assert(bytes[at + 4 * i] == data[4 * i]);
        assert(bytes[at + 4 * i + 1] == data[4 * i + 1]);
        assert(bytes[at + 4 * i + 2] == data[4 * i + 2]);
        assert(bytes[at + 4 * i + 3] == data[4 * i + 3]);
        assert(word(bytes, at + 4 * i) == word(word_bytes(ws[i]), 0));
    }
    assert(words(bytes, at, ws.len()) =~= ws);
}

/// Whether `t` is white space.
pub open spec fn all_white(t: Seq<char>) -> bool {
    forall|i: int| 0 <= i < t.len() ==> is_white(#[trigger] t[i])
}

/// A shape as it is written between parentheses: the white space before and
/// behind each size, and the comma behind the last where there is one.
pub ghost struct ShapeText {
    pub shape: Seq<usize>,
    pub before: Seq<Seq<char>>,
    pub behind: Seq<Seq<char>>,
    pub trailing_comma: bool,
    /// White space before the closing parenthesis.
    pub end: Seq<char>,
}

impl ShapeText {
    /// There is at least one size, and nothing but white space around them.
    pub open spec fn valid(self) -> bool {
        &&& self.shape.len() > 0
        &&& self.before.len() == self.shape.len()
        &&& self.behind.len() == self.shape.len()
        &&& forall|k: int| 0 <= k < self.shape.len() ==> all_white(#[trigger] self.before[k])
        &&& forall|k: int| 0 <= k < self.shape.len() ==> all_white(#[trigger] self.behind[k])
        &&& all_white(self.end)
    }

    /// What follows size `k`, up to the last size or the comma behind it.
    pub open spec fn after(self, k: int) -> Seq<char>
        decreases self.shape.len() - k,
    {
        if k + 1 < self.shape.len() {
            self.behind[k] + seq![','] + self.before[k + 1] + digits_of(self.shape[k + 1] as nat)
                + self.after(k + 1)
        } else if self.trailing_comma {
            self.behind[k] + seq![',']
        } else {
            seq![]
        }
    }

    /// The sizes and what stands between them.
    pub open spec fn sizes(self) -> Seq<char> {
        digits_of(self.shape[0] as nat) + self.after(0)
    }

    /// The whole text, with its parentheses.
    pub open spec fn text(self) -> Seq<char> {
        seq!['('] + self.before[0] + self.sizes() + self.end + seq![')']
    }
}

/// Whether `key` is not what stands at `p`.
spec fn differs(s: Seq<char>, key: Seq<char>, p: int) -> bool {
    exists|j: int| 0 <= j < key.len() && #[trigger] s[p + j] != key[j]
}

proof fn lemma_next_char(s: Seq<char>, c: char, from: int, to: int)
    requires
        0 <= from <= to <= s.len(),
        forall|p: int| from <= p < to ==> s[p] != c,
        to == s.len() || s[to] == c,
    ensures
        next_char(s, c, from) == to,
    decreases to - from,
{
    if from < to {
        lemma_next_char(s, c, from + 1, to);
    }
}

proof fn lemma_found(s: Seq<char>, key: Seq<char>, from: int, to: int)
    requires
        0 <= from <= to,
        to + key.len() <= s.len(),
        s.subrange(to, to + key.len()) == key,
        forall|p: int| from <= p < to ==> #[trigger] differs(s, key, p),
    ensures
        found(s, key, from) == Some(to),
    decreases to - from,
{
    if from < to {
        assert(differs(s, key, from));
        let j = choose|j: int| 0 <= j < key.len() && #[trigger] s[from + j] != key[j];
        let part = s.subrange(from, from + key.len());
        assert(part[j] == s[from + j]);
        lemma_found(s, key, from + 1, to);
    }
}

proof fn lemma_skip_white(s: Seq<char>, from: int, to: int)
    requires
        0 <= from <= to < s.len(),
        forall|p: int| from <= p < to ==> is_white(s[p]),
        !is_white(s[to]),
    ensures
        padding_skipped(s, from, false) == to,
    decreases to - from,
{
    if from < to {
        lemma_skip_white(s, from + 1, to);
    }
}

proof fn lemma_digits(n: usize)
    ensures
        number(digits_of(n as nat)) == Some(n),
        digits_of(n as nat).len() > 0,
        forall|i: int|
            0 <= i < digits_of(n as nat).len() ==> '0' <= #[trigger] digits_of(n as nat)[i] <= '9',
{
    let d = digits_of(n as nat);
    law_digits_write_the_number(n as nat);
    assert(digits_number(d) == Some(n));
    assert(d[0] != '+');
}

proof fn lemma_drop_padding(s: Seq<char>, n: int, parens: bool)
    requires
        0 < n <= s.len(),
        forall|p: int| n <= p < s.len() ==> is_padding(#[trigger] s[p], parens),
        !is_padding(s[n - 1], parens),
    ensures
        padding_dropped(s, parens) == n,
    decreases s.len(),
{
    if n < s.len() {
        let t = s.drop_last();
        assert forall|p: int| n <= p < t.len() implies is_padding(#[trigger] t[p], parens) by {
            assert(t[p] == s[p]);
        }
        assert(is_padding(s[s.len() - 1], parens));
        lemma_drop_padding(t, n, parens);
    }
}

proof fn lemma_skip_padding(s: Seq<char>, from: int, to: int, parens: bool)
    requires
        0 <= from <= to < s.len(),
        forall|p: int| from <= p < to ==> is_padding(#[trigger] s[p], parens),
        !is_padding(s[to], parens),
    ensures
        padding_skipped(s, from, parens) == to,
    decreases to - from,
{
    if from < to {
        assert(is_padding(s[from], parens));
        lemma_skip_padding(s, from + 1, to, parens);
    }
}

/// Trimming takes the padding off both ends of a text that has none there.
proof fn lemma_trim(front: Seq<char>, core: Seq<char>, back: Seq<char>, parens: bool)
    requires
        core.len() > 0,
        !is_padding(core[0], parens),
        !is_padding(core.last(), parens),
        forall|p: int| 0 <= p < front.len() ==> is_padding(#[trigger] front[p], parens),
        forall|p: int| 0 <= p < back.len() ==> is_padding(#[trigger] back[p], parens),
    ensures
        trimmed(front + core + back, parens) == core,
{
    let s = front + core + back;
    let n = (front.len() + core.len()) as int;
    assert forall|p: int| n <= p < s.len() implies is_padding(#[trigger] s[p], parens) by {
        assert(s[p] == back[p - n]);
    }
    assert(s[n - 1] == core.last());
    lemma_drop_padding(s, n, parens);
    let kept = s.take(n);
    assert(kept =~= front + core);
    assert forall|p: int| 0 <= p < front.len() implies is_padding(#[trigger] kept[p], parens) by {
        assert(kept[p] == front[p]);
    }
    assert(kept[front.len() as int] == core[0]);
    lemma_skip_padding(kept, 0, front.len() as int, parens);
    assert(kept.skip(front.len() as int) =~= core);
}

proof fn lemma_trim_nothing()
    ensures
        trimmed(Seq::<char>::empty(), false) == Seq::<char>::empty(),
{
    let none = Seq::<char>::empty();
    assert(padding_dropped(none, false) == 0);
    assert(none.take(0) =~= none);
    assert(padding_skipped(none, 0, false) == 0);
    assert(none.skip(0) =~= none);
}

proof fn lemma_sizes_read_back(t: ShapeText, k: int, s: Seq<char>, from: int, lead: Seq<char>)
    requires
        t.valid(),
        0 <= k < t.shape.len(),
        0 <= from <= s.len(),
        all_white(lead),
        s.skip(from) == lead + digits_of(t.shape[k] as nat) + t.after(k),
    ensures
        dims_from(s, from) == Ok::<Seq<usize>, Seq<char>>(t.shape.skip(k)),
    decreases t.shape.len() - k,
{
    let d = digits_of(t.shape[k] as nat);
    let after = t.after(k);
    let last = k + 1 == t.shape.len();
    let comma = !last || t.trailing_comma;
    let behind: Seq<char> = if comma {
        t.behind[k]
    } else {
        seq![]
    };
    let end = from + lead.len() + d.len() + behind.len();
    let tail = s.skip(from);
    lemma_digits(t.shape[k]);
    assert(all_white(behind));
    assert(tail.len() == lead.len() + d.len() + after.len());
    let whole = lead + d + behind;
    assert(tail.take(whole.len() as int) =~= whole);
    assert forall|p: int| from <= p < end implies s[p] != ',' by {
        let q = p - from;
        assert(s[p] == tail[q]);
        assert(tail[q] == whole[q]);
        if q < lead.len() {
            assert(whole[q] == lead[q]);
            assert(is_white(lead[q]));
        } else if q < lead.len() + d.len() {
            assert(whole[q] == d[q - lead.len()]);
        } else {
            assert(whole[q] == behind[q - lead.len() - d.len()]);
            assert(is_white(behind[q - lead.len() - d.len()]));
        }
    }
    if comma {
        assert(after[behind.len() as int] == ',');
        assert(s[end] == tail[end - from]);
        assert(tail[end - from] == after[behind.len() as int]);
    }
    lemma_next_char(s, ',', from, end);
    let part = s.subrange(from, end);
    assert(part =~= whole);
    lemma_trim(lead, d, behind, false);
    assert(trimmed(part, false) == d);
    if !last {
        let next = digits_of(t.shape[k + 1] as nat);
        assert(s.skip(end + 1) =~= tail.skip(end + 1 - from));
        assert(s.skip(end + 1) =~= t.before[k + 1] + next + t.after(k + 1));
        assert(all_white(t.before[k + 1]));
        lemma_sizes_read_back(t, k + 1, s, end + 1, t.before[k + 1]);
        assert(seq![t.shape[k]] + t.shape.skip(k + 1) =~= t.shape.skip(k));
    } else {
        assert(t.shape.skip(k) =~= seq![t.shape[k]]);
        if comma {
            assert(end + 1 == s.len());
            lemma_next_char(s, ',', end + 1, s.len() as int);
            assert(s.subrange(end + 1, s.len() as int) =~= seq![]);
            lemma_trim_nothing();
            assert(dims_from(s, end + 1) == Ok::<Seq<usize>, Seq<char>>(seq![]));
        }
        assert(seq![t.shape[k]] + Seq::<usize>::empty() =~= seq![t.shape[k]]);
    }
}

/// Behind a size stand neither parentheses nor quotes, and no white space at
/// the end.
proof fn lemma_after(t: ShapeText, k: int)
    requires
        t.valid(),
        0 <= k < t.shape.len(),
    ensures
        forall|i: int|
            0 <= i < t.after(k).len() ==> (#[trigger] t.after(k)[i]) != ')' && t.after(k)[i] != '('
                && t.after(k)[i] != '\'',
        t.after(k).len() > 0 ==> !is_padding(t.after(k).last(), true),
    decreases t.shape.len() - k,
{
    let after = t.after(k);
    let behind = t.behind[k];
    assert(all_white(behind));
    if k + 1 < t.shape.len() {
        let before = t.before[k + 1];
        let d = digits_of(t.shape[k + 1] as nat);
        let more = t.after(k + 1);
        assert(all_white(before));
        lemma_digits(t.shape[k + 1]);
        lemma_after(t, k + 1);
        let b = behind.len() as int;
        let c = b + 1 + before.len();
        assert forall|i: int| 0 <= i < after.len() implies (#[trigger] after[i]) != ')' && after[i]
            != '(' && after[i] != '\'' by {
            if i < b {
                assert(after[i] == behind[i]);
                assert(is_white(behind[i]));
            } else if i == b {
                assert(after[i] == ',');
            } else if i < c {
                assert(after[i] == before[i - b - 1]);
                assert(is_white(before[i - b - 1]));
            } else if i < c + d.len() {
                assert(after[i] == d[i - c]);
            } else {
                assert(after[i] == more[i - c - d.len()]);
            }
        }
        if more.len() == 0 {
            assert(after.last() == d.last());
        } else {
            assert(after.last() == more.last());
        }
    } else if t.trailing_comma {
        assert forall|i: int| 0 <= i < after.len() implies (#[trigger] after[i]) != ')' && after[i]
            != '(' && after[i] != '\'' by {
            if i < behind.len() {
                assert(after[i] == behind[i]);
                assert(is_white(behind[i]));
            }
        }
        assert(after.last() == ',');
    }
}

/// The text of a shape opens and closes with its only parentheses, and holds
/// no quote.
proof fn lemma_shape_text(t: ShapeText)
    requires
        t.valid(),
    ensures
        t.text().len() >= 3,
        t.text()[0] == '(',
        t.text().last() == ')',
        forall|i: int| 0 <= i < t.text().len() ==> (#[trigger] t.text()[i]) != '\'',
        forall|i: int| 0 <= i < t.text().len() - 1 ==> (#[trigger] t.text()[i]) != ')',
        t.sizes().len() > 0,
        !is_padding(t.sizes()[0], true),
        !is_padding(t.sizes().last(), true),
{
    let d = digits_of(t.shape[0] as nat);
    let after = t.after(0);
    let sizes = t.sizes();
    let text = t.text();
    let before = t.before[0];
    lemma_digits(t.shape[0]);
    lemma_after(t, 0);
    assert(all_white(before));
    assert(sizes[0] == d[0]);
    if after.len() == 0 {
        assert(sizes.last() == d.last());
    } else {
        assert(sizes.last() == after.last());
    }
    let b = 1 + before.len() as int;
    let c = b + sizes.len();
    assert forall|i: int| 0 <= i < text.len() implies (#[trigger] text[i]) != '\'' && (i
        < text.len() - 1 ==> text[i] != ')') by {
        if i == 0 {
            assert(text[i] == '(');
        } else if i < b {
            assert(text[i] == before[i - 1]);
            assert(is_white(before[i - 1]));
        } else if i < c {
            assert(text[i] == sizes[i - b]);
            if i - b < d.len() {
                assert(sizes[i - b] == d[i - b]);
            } else {
                assert(sizes[i - b] == after[i - b - d.len()]);
            }
        } else if i < text.len() - 1 {
            assert(text[i] == t.end[i - c]);
            assert(is_white(t.end[i - c]));
        }
    }
}

/// A shape reads back from its text, however the text is spaced.
pub proof fn law_shapes_read_back(t: ShapeText)
    requires
        t.valid(),
    ensures
        shape_of(t.text()) == Ok::<Seq<usize>, Seq<char>>(t.shape),
{
    let sizes = t.sizes();
    let front = seq!['('] + t.before[0];
    let back = t.end + seq![')'];
    lemma_shape_text(t);
    assert(all_white(t.before[0]));
    assert forall|p: int| 0 <= p < front.len() implies is_padding(#[trigger] front[p], true) by {
        if p > 0 {
            assert(front[p] == t.before[0][p - 1]);
            assert(is_white(t.before[0][p - 1]));
        }
    }
    assert forall|p: int| 0 <= p < back.len() implies is_padding(#[trigger] back[p], true) by {
        if p < t.end.len() {
            assert(back[p] == t.end[p]);
            assert(is_white(t.end[p]));
        }
    }
    assert(t.text() =~= front + sizes + back);
    lemma_trim(front, sizes, back, true);
    assert(sizes.skip(0) =~= sizes);
    assert(sizes =~= Seq::<char>::empty() + digits_of(t.shape[0] as nat) + t.after(0));
    lemma_sizes_read_back(t, 0, sizes, 0, Seq::empty());
    assert(t.shape.skip(0) =~= t.shape);
}

/// Whether no key that begins like those of the element type and the shape
/// stands in `t`.
pub open spec fn is_quiet(t: Seq<char>) -> bool {
    forall|p: int|
        0 <= p < t.len() && #[trigger] t[p] == '\'' ==> p + 1 < t.len() && t[p + 1] != 'd' && t[p
            + 1] != 's'
}

/// The text of a header: the element type and the shape in either order, and
/// whatever else stands before, between and behind them.
pub ghost struct HeaderText {
    pub descr_first: bool,
    pub front: Seq<char>,
    pub between: Seq<char>,
    pub rest: Seq<char>,
    pub dtype: Seq<char>,
    pub shape: ShapeText,
    /// White space behind the colons.
    pub descr_gap: Seq<char>,
    pub shape_gap: Seq<char>,
}

impl HeaderText {
    /// The element type holds no quote, there is white space behind the colons
    /// at most, a comma follows the first entry, and no other entry is one of
    /// the two.
    pub open spec fn valid(self) -> bool {
        &&& self.shape.valid()
        &&& all_white(self.descr_gap)
        &&& all_white(self.shape_gap)
        &&& forall|i: int| 0 <= i < self.dtype.len() ==> (#[trigger] self.dtype[i]) != '\''
        &&& is_quiet(self.front)
        &&& is_quiet(self.between)
        &&& self.between.len() > 0
        &&& self.between[0] == ','
    }

    /// The entry for the element type.
    pub open spec fn descr_entry(self) -> Seq<char> {
        "'descr':"@ + self.descr_gap + seq!['\''] + self.dtype + seq!['\'']
    }

    /// The entry for the shape.
    pub open spec fn shape_entry(self) -> Seq<char> {
        "'shape':"@ + self.shape_gap + self.shape.text()
    }

    /// Where the entry for the element type begins.
    pub open spec fn descr_at(self) -> int {
        if self.descr_first {
            self.front.len() as int
        } else {
            (self.front.len() + self.shape_entry().len() + self.between.len()) as int
        }
    }

    /// Where the entry for the shape begins.
    pub open spec fn shape_at(self) -> int {
        if self.descr_first {
            (self.front.len() + self.descr_entry().len() + self.between.len()) as int
        } else {
            self.front.len() as int
        }
    }

    /// The whole text.
    pub open spec fn text(self) -> Seq<char> {
        if self.descr_first {
            self.front + self.descr_entry() + self.between + self.shape_entry() + self.rest
        } else {
            self.front + self.shape_entry() + self.between + self.descr_entry() + self.rest
        }
    }
}

proof fn lemma_keys()
    ensures
        "'descr':"@ == seq!['\'', 'd', 'e', 's', 'c', 'r', '\'', ':'],
        "'shape':"@ == seq!['\'', 's', 'h', 'a', 'p', 'e', '\'', ':'],
{
    reveal_strlit("'descr':");
    reveal_strlit("'shape':");
    assert("'descr':"@ =~= seq!['\'', 'd', 'e', 's', 'c', 'r', '\'', ':']);
    assert("'shape':"@ =~= seq!['\'', 's', 'h', 'a', 'p', 'e', '\'', ':']);
}

/// A key does not stand where a text without such keys is.
proof fn lemma_quiet(s: Seq<char>, key: Seq<char>, t: Seq<char>, at: int)
    requires
        0 <= at,
        at + t.len() <= s.len(),
        s.subrange(at, at + t.len()) == t,
        is_quiet(t),
        key.len() == 8,
        key[0] == '\'',
        key[1] == 's' || key[1] == 'd',
    ensures
        forall|p: int| at <= p < at + t.len() ==> #[trigger] differs(s, key, p),
{
    assert forall|p: int| at <= p < at + t.len() implies #[trigger] differs(s, key, p) by {
        let part = s.subrange(at, at + t.len());
        assert(part[p - at] == s[p]);
        if t[p - at] == '\'' {
            assert(part[p - at + 1] == s[p + 1]);
            assert(s[p + 1] != key[1]);
        } else {
            assert(s[p + 0] != key[0]);
        }
    }
}

/// The element type is read off its entry.
proof fn lemma_descr_is_read(h: HeaderText)
    requires
        h.valid(),
        found(h.text(), "'descr':"@, 0) == Some(h.descr_at()),
        h.text().subrange(h.descr_at(), h.descr_at() + h.descr_entry().len()) == h.descr_entry(),
        0 <= h.descr_at(),
        h.descr_at() + h.descr_entry().len() <= h.text().len(),
    ensures
        string_value(h.text(), "'descr':"@) == Some(h.dtype),
{
    let s = h.text();
    let at = h.descr_at();
    let entry = h.descr_entry();
    let gap = h.descr_gap;
    lemma_keys();
    assert forall|i: int| 0 <= i < entry.len() implies s[at + i] == #[trigger] entry[i] by {
        assert(s.subrange(at, at + entry.len())[i] == s[at + i]);
    }
    let open = at + 8 + gap.len();
    let close = open + 1 + h.dtype.len();
    assert forall|p: int| at + 8 <= p < open implies is_white(s[p]) by {
        assert(s[p] == entry[p - at]);
        assert(entry[p - at] == gap[p - at - 8]);
        assert(is_white(gap[p - at - 8]));
    }
    assert(s[open] == entry[open - at]);
    assert(s[open] == '\'');
    lemma_skip_white(s, at + 8, open);
    assert forall|p: int| open + 1 <= p < close implies s[p] != '\'' by {
        assert(s[p] == entry[p - at]);
        assert(entry[p - at] == h.dtype[p - open - 1]);
    }
    assert(s[close] == entry[close - at]);
    assert(s[close] == '\'');
    lemma_next_char(s, '\'', open + 1, close);
    assert forall|i: int| 0 <= i < h.dtype.len() implies s.subrange(open + 1, close)[i]
        == h.dtype[i] by {
        assert(s[open + 1 + i] == entry[open + 1 + i - at]);
    }
    assert(s.subrange(open + 1, close) =~= h.dtype);
}

/// The shape's text is read off its entry.
proof fn lemma_shape_is_read(h: HeaderText)
    requires
        h.valid(),
        found(h.text(), "'shape':"@, 0) == Some(h.shape_at()),
        h.text().subrange(h.shape_at(), h.shape_at() + h.shape_entry().len()) == h.shape_entry(),
        0 <= h.shape_at(),
        h.shape_at() + h.shape_entry().len() <= h.text().len(),
    ensures
        tuple_value(h.text(), "'shape':"@) == Some(h.shape.text()),
{
    let s = h.text();
    let at = h.shape_at();
    let entry = h.shape_entry();
    let gap = h.shape_gap;
    let text = h.shape.text();
    lemma_keys();
    lemma_shape_text(h.shape);
    assert forall|i: int| 0 <= i < entry.len() implies s[at + i] == #[trigger] entry[i] by {
        assert(s.subrange(at, at + entry.len())[i] == s[at + i]);
    }
    let open = at + 8 + gap.len();
    let close = open + text.len() - 1;
    assert forall|p: int| at + 8 <= p < open implies is_white(s[p]) by {
        assert(s[p] == entry[p - at]);
        assert(entry[p - at] == gap[p - at - 8]);
        assert(is_white(gap[p - at - 8]));
    }
    assert forall|p: int| open <= p <= close implies s[p] == #[trigger] text[p - open] by {
        assert(s[p] == entry[p - at]);
    }
    assert(s[open] == text[0]);
    lemma_skip_white(s, at + 8, open);
    assert forall|p: int| open <= p < close implies s[p] != ')' by {
        assert(s[p] == text[p - open]);
    }
    assert(s[close] == text[close - open]);
    lemma_next_char(s, ')', open, close);
    assert(s.subrange(open, close + 1) =~= text);
}

/// Neither key stands in the entry of the shape but at its beginning.
proof fn lemma_in_shape_entry(h: HeaderText, s: Seq<char>, at: int)
    requires
        h.valid(),
        0 <= at,
        at + h.shape_entry().len() <= s.len(),
        s.subrange(at, at + h.shape_entry().len()) == h.shape_entry(),
    ensures
        forall|p: int| at <= p < at + h.shape_entry().len() ==> #[trigger] differs(s, "'descr':"@, p),
{
    let entry = h.shape_entry();
    let key = "'descr':"@;
    lemma_keys();
    lemma_shape_text(h.shape);
    assert forall|i: int| 0 <= i < entry.len() implies s[at + i] == #[trigger] entry[i] by {
        assert(s.subrange(at, at + entry.len())[i] == s[at + i]);
    }
    assert forall|p: int| at <= p < at + entry.len() implies #[trigger] differs(s, key, p) by {
        let i = p - at;
        assert(s[p + 0] == entry[i]);
        if i == 0 {
            assert(s[p + 1] == entry[1]);
            assert(s[p + 1] != key[1]);
        } else if i == 6 {
            assert(s[p + 1] == entry[7]);
            assert(s[p + 1] != key[1]);
        } else {
            if i >= 8 + h.shape_gap.len() {
                assert(entry[i] == h.shape.text()[i - 8 - h.shape_gap.len()]);
            } else if i >= 8 {
                assert(entry[i] == h.shape_gap[i - 8]);
                assert(is_white(h.shape_gap[i - 8]));
            }
            assert(s[p + 0] != key[0]);
        }
    }
}

/// The shape's key does not stand in the entry of the element type, where a
/// comma follows that.
proof fn lemma_in_descr_entry(h: HeaderText, s: Seq<char>, at: int)
    requires
        h.valid(),
        0 <= at,
        at + h.descr_entry().len() < s.len(),
        s.subrange(at, at + h.descr_entry().len()) == h.descr_entry(),
        s[at + h.descr_entry().len()] == ',',
    ensures
        forall|p: int| at <= p < at + h.descr_entry().len() ==> #[trigger] differs(s, "'shape':"@, p),
{
    let entry = h.descr_entry();
    let key = "'shape':"@;
    let open = 8 + h.descr_gap.len() as int;
    let close = open + 1 + h.dtype.len();
    lemma_keys();
    assert forall|i: int| 0 <= i < entry.len() implies s[at + i] == #[trigger] entry[i] by {
        assert(s.subrange(at, at + entry.len())[i] == s[at + i]);
    }
    assert forall|p: int| at <= p < at + entry.len() implies #[trigger] differs(s, key, p) by {
        let i = p - at;
        assert(s[p + 0] == entry[i]);
        if i == 0 || i == 6 {
            assert(s[p + 1] == entry[i + 1]);
            assert(s[p + 1] != key[1]);
        } else if i == open {
            // The closing quote, or what follows it, is not where the key has it.
            let n = h.dtype.len() as int;
            if n < 5 {
                assert(s[p + (n + 1)] == entry[close]);
                assert(s[p + (n + 1)] != key[n + 1]);
            } else if n == 5 {
                assert(s[p + 7] == ',');
                assert(s[p + 7] != key[7]);
            } else {
                assert(s[p + 6] == entry[open + 6]);
                assert(entry[open + 6] == h.dtype[5]);
                assert(s[p + 6] != key[6]);
            }
        } else if i == close {
            assert(s[p + 1] == ',');
            assert(s[p + 1] != key[1]);
        } else {
            if i > open {
                assert(entry[i] == h.dtype[i - open - 1]);
            } else if i >= 8 {
                assert(entry[i] == h.descr_gap[i - 8]);
                assert(is_white(h.descr_gap[i - 8]));
            }
            assert(s[p + 0] != key[0]);
        }
    }
}

/// A header says its element type and its shape, in whatever order the entries
/// stand, however it is spaced, and whatever else it says.
pub proof fn law_headers_are_understood(h: HeaderText, context: Seq<char>)
    requires
        h.valid(),
    ensures
        header_of(h.text(), context) == Ok::<(Seq<char>, Seq<usize>), NpyFault>(
            (h.dtype, h.shape.shape),
        ),
{
    let s = h.text();
    let descr = "'descr':"@;
    let shape = "'shape':"@;
    let d = h.descr_at();
    let e = h.shape_at();
    lemma_keys();
    assert(s.subrange(0, h.front.len() as int) =~= h.front);
    assert(s.subrange(d, d + h.descr_entry().len()) =~= h.descr_entry());
    assert(s.subrange(e, e + h.shape_entry().len()) =~= h.shape_entry());
    assert(s.subrange(d, d + 8) =~= descr) by {
        assert(h.descr_entry().subrange(0, 8) =~= descr);
        assert forall|i: int| 0 <= i < 8 implies s.subrange(d, d + 8)[i] == descr[i] by {
            assert(s.subrange(d, d + h.descr_entry().len())[i] == h.descr_entry()[i]);
        }
    }
    assert(s.subrange(e, e + 8) =~= shape) by {
        assert forall|i: int| 0 <= i < 8 implies s.subrange(e, e + 8)[i] == shape[i] by {
            assert(s.subrange(e, e + h.shape_entry().len())[i] == h.shape_entry()[i]);
        }
    }
    lemma_quiet(s, descr, h.front, 0);
    lemma_quiet(s, shape, h.front, 0);
    if h.descr_first {
        let m = d + h.descr_entry().len();
        assert(s.subrange(m, m + h.between.len()) =~= h.between);
        assert(s[m] == h.between[0]);
        lemma_quiet(s, shape, h.between, m);
        lemma_in_descr_entry(h, s, d);
    } else {
        let m = e + h.shape_entry().len();
        assert(s.subrange(m, m + h.between.len()) =~= h.between);
        lemma_quiet(s, descr, h.between, m);
        lemma_in_shape_entry(h, s, e);
    }
    lemma_found(s, descr, 0, d);
    lemma_found(s, shape, 0, e);
    lemma_descr_is_read(h);
    lemma_shape_is_read(h);
    law_shapes_read_back(h.shape);
}

/// So do the headers that NumPy writes.
pub proof fn law_numpy_headers_are_understood(
    dtype: Seq<char>,
    shape: ShapeText,
    rest: Seq<char>,
    context: Seq<char>,
)
    requires
        shape.valid(),
        forall|i: int| 0 <= i < dtype.len() ==> (#[trigger] dtype[i]) != '\'',
    ensures
        header_of(
            "{'descr': '"@ + dtype + "', 'fortran_order': False, 'shape': "@ + shape.text() + rest,
            context,
        ) == Ok::<(Seq<char>, Seq<usize>), NpyFault>((dtype, shape.shape)),
{
    reveal_strlit("{'descr': '");
    reveal_strlit("', 'fortran_order': False, 'shape': ");
    reveal_strlit(", 'fortran_order': False, ");
    lemma_keys();
    let h = HeaderText {
        descr_first: true,
        front: seq!['{'],
        between: ", 'fortran_order': False, "@,
        rest,
        dtype,
        shape,
        descr_gap: seq![' '],
        shape_gap: seq![' '],
    };
    assert(h.valid());
    assert("{'descr': '"@ =~= h.front + "'descr':"@ + h.descr_gap + seq!['\'']);
    assert("', 'fortran_order': False, 'shape': "@ =~= seq!['\''] + h.between + "'shape':"@
        + h.shape_gap);
    assert("{'descr': '"@ + dtype + "', 'fortran_order': False, 'shape': "@ + shape.text() + rest
        =~= h.text());
    law_headers_are_understood(h, context);
}

/// A file with such a header reads back as the elements that were written into
/// it and their shape.
pub proof fn law_files_read_back(
    version: u8,
    h: HeaderText,
    ws: Seq<u32>,
    rest: Seq<u8>,
    stream: ByteStream,
    context: Seq<char>,
)
    requires
        h.valid(),
        header_fits(version, encode_utf8(h.text()).len()),
        element_count(h.shape.shape) == Some(ws.len() as usize),
        ws.len() <= usize::MAX,
        stream.bytes@ == file_bytes(version, h.text(), ws) + rest,
    ensures
        array_of(stream, context, h.dtype) == Ok::<(Seq<u32>, Seq<usize>), NpyFault>(
            (ws, h.shape.shape),
        ),
{
    law_headers_are_understood(h, context);
    law_written_words_read_back(
        version,
        h.text(),
        h.dtype,
        h.shape.shape,
        ws,
        rest,
        stream,
        context,
    );
}

/// Bytes are refused in this order: where there are fewer than ten, where they
/// do not begin with the six of the format, where the version is neither one
/// nor two, and where they end before the header does.
pub proof fn law_preambles_are_refused(bytes: Seq<u8>, context: Seq<char>, i: int)
    ensures
        bytes.len() < 10 ==> preamble_of(bytes, context) == Err::<
            (Seq<char>, Seq<usize>, int),
            NpyFault,
        >(NpyFault::Io(None, context)),
        bytes.len() >= 10 && 0 <= i < 6 && bytes[i] != seq![147u8, 78, 85, 77, 80, 89][i]
            ==> preamble_of(bytes, context) == Err::<(Seq<char>, Seq<usize>, int), NpyFault>(
            NpyFault::BadMagic(context),
        ),
        bytes.len() >= 10 && bytes.take(6) == seq![147u8, 78, 85, 77, 80, 89] ==> {
            &&& bytes[6] != 1 && bytes[6] != 2 ==> preamble_of(bytes, context) == Err::<
                (Seq<char>, Seq<usize>, int),
                NpyFault,
            >(NpyFault::UnsupportedVersion(bytes[6], context))
            &&& bytes[6] == 1 && bytes.len() < 10 + bytes[8] + 256 * bytes[9] ==> preamble_of(
                bytes,
                context,
            ) == Err::<(Seq<char>, Seq<usize>, int), NpyFault>(NpyFault::Io(None, context))
            &&& bytes[6] == 2 && (bytes.len() < 12 || bytes.len() < 12 + bytes[8] + 256 * bytes[9]
                + 65536 * bytes[10] + 16777216 * bytes[11]) ==> preamble_of(bytes, context) == Err::<
                (Seq<char>, Seq<usize>, int),
                NpyFault,
            >(NpyFault::Io(None, context))
        },
        preamble_of(bytes, context) matches Ok((_, _, start)) ==> start == (if bytes[6] == 1 {
            10 + bytes[8] + 256 * bytes[9]
        } else {
            12 + bytes[8] + 256 * bytes[9] + 65536 * bytes[10] + 16777216 * bytes[11]
        }),
{
    if bytes.len() >= 10 && 0 <= i < 6 && bytes[i] != seq![147u8, 78, 85, 77, 80, 89][i] {
        assert(bytes.take(6)[i] == bytes[i]);
    }
}

/// A header without an element type is refused before one without a shape, and
/// that before a shape that cannot be read.
pub proof fn law_headers_are_refused(
    header: Seq<char>,
    context: Seq<char>,
    tuple: Seq<char>,
    dim: Seq<char>,
)
    ensures
        string_value(header, "'descr':"@) is None ==> header_of(header, context) == Err::<
            (Seq<char>, Seq<usize>),
            NpyFault,
        >(NpyFault::BadHeader { context, message: "missing 'descr' key"@ }),
        string_value(header, "'descr':"@) is Some && tuple_value(header, "'shape':"@) is None
            ==> header_of(header, context) == Err::<(Seq<char>, Seq<usize>), NpyFault>(
            NpyFault::BadHeader { context, message: "missing 'shape' key"@ },
        ),
        string_value(header, "'descr':"@) is Some && tuple_value(header, "'shape':"@) == Some(tuple)
            && shape_of(tuple) == Err::<Seq<usize>, Seq<char>>(dim) ==> header_of(header, context)
            == Err::<(Seq<char>, Seq<usize>), NpyFault>(
            NpyFault::BadShape { context, message: "non-integer dim '"@ + dim + "'"@ },
        ),
{
}

/// Sizes multiply: an array of two groups of sizes holds as many elements as
/// the one times the other, and a single size counts itself.
pub proof fn law_sizes_multiply(first: Seq<usize>, second: Seq<usize>, n: usize)
    ensures
        product(first + second) == product(first) * product(second),
        product(seq![n]) == n,
        product(Seq::empty()) == 1,
    decreases second.len(),
{
    assert(seq![n].drop_last() =~= Seq::<usize>::empty());
    assert(product(seq![n].drop_last()) == 1);
    assert(product(seq![n]) == 1 * n as nat);
    assert(1 * n as nat == n) by (nonlinear_arith);
    if second.len() == 0 {
        assert(first + second =~= first);
        assert(product(second) == 1);
        let a = product(first);
        assert(a * 1 == a) by (nonlinear_arith);
    } else {
        let front = second.drop_last();
        law_sizes_multiply(first, front, n);
        assert((first + second).drop_last() =~= first + front);
        let a = product(first);
        let b = product(front);
        let c = second.last() as nat;
        assert((first + second).last() == second.last());
        assert(product(first + second) == (a * b) * c);
        assert(product(second) == b * c);
        assert((a * b) * c == a * (b * c)) by (nonlinear_arith);
    }
}

/// Sizes cannot be counted where those of the first few dimensions already
/// multiply to more than can be.
pub proof fn law_large_shapes_are_not_counted(shape: Seq<usize>, n: int)
    requires
        0 <= n <= shape.len(),
    ensures
        product(shape.take(n)) > usize::MAX ==> element_count(shape) is None,
        element_count(shape) matches Some(count) ==> count == product(shape),
{
    assert(shape.take(shape.len() as int) =~= shape);
    if product(shape.take(n)) > usize::MAX {
        assert(!countable(shape));
    }
}

/// A word stands for itself as an integer where it is below `2^31`, and for
/// itself less `2^32` where it is not.
pub proof fn law_words_are_signed(w: u32)
    ensures
        w < 2147483648 ==> signed(w) as int == w,
        w >= 2147483648 ==> signed(w) as int == w - 4294967296,
{
}

/// A shape of nothing but white space and parentheses is that of one element in
/// a row.
pub proof fn law_blank_shapes_hold_one(tuple: Seq<char>)
    requires
        forall|i: int|
            0 <= i < tuple.len() ==> is_white(#[trigger] tuple[i]) || tuple[i] == '(' || tuple[i]
                == ')',
    ensures
        shape_of(tuple) == Ok::<Seq<usize>, Seq<char>>(seq![1usize]),
{
    let (lo, hi) = law_trimming_drops_the_padding(tuple, true);
    if lo < hi {
        assert(is_white(tuple[lo]) || tuple[lo] == '(' || tuple[lo] == ')');
    }
}

} // verus!
