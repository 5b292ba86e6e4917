//! Triangle soups in the STL file format, read from bytes.
//!
//! A coordinate is kept as the bit pattern of a single-precision float, as
//! the binary form of the format stores it.

use vstd::prelude::*;
use vstd::slice::slice_subrange;
use vstd::utf8::valid_utf8;
use byteorder::ByteOrder;

verus! {

/// A point or a direction in space: the bit patterns of its three
/// coordinates.
#[derive(Default, Copy, Clone, Debug, PartialEq, Eq)]
pub struct Pt3(pub [u32; 3]);

/// A direction at right angles to a facet.
pub type Normal = Pt3;

/// A corner of a facet.
pub type Vertex = Pt3;

/// One triangle of a soup, with its normal.
#[derive(Default, Copy, Clone, Debug, PartialEq, Eq)]
pub struct Facet {
    pub tri: [Vertex; 3],
    pub normal: Normal,
}

/// The two forms of the format.
#[derive(Copy, Clone, Debug, PartialEq, Eq, Structural)]
pub enum Encoding {
    Ascii,
    Binary,
}

/// A stretch of a text: the bytes from `start` up to, not including, `end`.
#[derive(Copy, Clone, Debug, PartialEq, Eq, Structural)]
pub struct Word {
    pub start: usize,
    pub end: usize,
}

/// Why a file could not be read. The errors of an ASCII file name the line,
/// counted from zero, and the stretch of the text that the line takes
/// without the blanks at its ends.
#[derive(Copy, Clone, Debug, PartialEq, Eq, Structural)]
pub enum StlError {
    /// The first five bytes are not text.
    HeaderNotText,
    /// The file ends before the facets that it announces.
    Truncated,
    /// The line does not start with the word that has to come next.
    UnexpectedToken { line: usize, raw: Word },
    /// The line is not `facet normal` with three numbers.
    ExpectedNormal { line: usize, raw: Word },
    /// The line is not `vertex` with three numbers.
    ExpectedVertex { line: usize, raw: Word },
}

/// One facet of an ASCII file: where in the text the three numbers of its
/// normal and of each of its corners stand.
#[derive(Copy, Clone, Debug, PartialEq, Eq)]
pub struct AsciiFacet {
    pub tri: [[Word; 3]; 3],
    pub normal: [Word; 3],
}

/// What an ASCII file has to go on with.
#[derive(Copy, Clone, Debug, PartialEq, Eq, Structural)]
pub enum ParsingState {
    ExpectingSolidStart,
    ExpectingStartOfFacetOrEndOfSolid,
    ExpectingFacetEnd,
    ExpectingLoopStart,
    ExpectingLoopEnd,
    ExpectingVertex,
    Done,
}

/// The number of bytes before the first facet of a binary file: eighty bytes
/// of free text and four for the number of facets.
pub const BINARY_HEADER_LEN: usize = 84;

/// The number of bytes that a facet takes in a binary file: twelve
/// coordinates of four bytes, and two bytes that say nothing about the shape.
pub const BINARY_FACET_LEN: usize = 50;

/// The word that an ASCII file starts with.
pub open spec fn solid_word() -> Seq<u8> {
    seq![0x73u8, 0x6fu8, 0x6cu8, 0x69u8, 0x64u8]
}

/// The number made of the four bytes from `at` on, the lowest byte first.
pub open spec fn le_u32(bytes: Seq<u8>, at: int) -> u32
    recommends
        0 <= at,
        at + 4 <= bytes.len(),
{
    (bytes[at] + 0x100 * bytes[at + 1] + 0x1_0000 * bytes[at + 2] + 0x100_0000 * bytes[at + 3]) as u32
}

/// The three coordinates stored from `at` on.
pub open spec fn point_at(bytes: Seq<u8>, at: int) -> Pt3 {
    Pt3([le_u32(bytes, at), le_u32(bytes, at + 4), le_u32(bytes, at + 8)])
}

/// The facet stored from `at` on: its normal, then its three corners.
pub open spec fn facet_at(bytes: Seq<u8>, at: int) -> Facet {
    Facet {
        tri: [point_at(bytes, at + 12), point_at(bytes, at + 24), point_at(bytes, at + 36)],
        normal: point_at(bytes, at),
    }
}

/// The number of facets that a binary file announces.
pub open spec fn binary_count(bytes: Seq<u8>) -> int
    recommends
        bytes.len() >= BINARY_HEADER_LEN,
{
    le_u32(bytes, 80) as int
}

/// Whether a binary file holds all that is read of it: the header, and of
/// every facet it announces the twelve coordinates.
pub open spec fn binary_is_complete(bytes: Seq<u8>) -> bool {
    &&& bytes.len() >= BINARY_HEADER_LEN
    &&& binary_count(bytes) > 0 ==> bytes.len() >= BINARY_HEADER_LEN + BINARY_FACET_LEN
        * binary_count(bytes) - 2
}

/// The facets of a binary file, in the order of the file.
pub open spec fn binary_facets(bytes: Seq<u8>) -> Seq<Facet> {
    Seq::new(
        binary_count(bytes) as nat,
        |k: int| facet_at(bytes, BINARY_HEADER_LEN + BINARY_FACET_LEN * k),
    )
}

/// `str::from_utf8`: whether the bytes are text in UTF-8.
#[verifier::external_body]
fn is_utf8(bytes: &[u8]) -> (r: bool)
    ensures
        r == valid_utf8(bytes@),
{
    core::str::from_utf8(bytes).is_ok()
}

/// `byteorder::LittleEndian::read_u32`: the number made of the first four
/// bytes, the lowest byte first. There have to be four bytes.
#[verifier::external_body]
fn read_u32_le(buf: &[u8]) -> (r: u32)
    requires
        buf@.len() >= 4,
    ensures
        r == le_u32(buf@, 0),
{
    byteorder::LittleEndian::read_u32(buf)
}

/// The form of a file, from its first five bytes: ASCII if they spell
/// `solid`, binary if they are any other text.
pub fn get_stl_encoding(header: &[u8; 5]) -> (r: Result<Encoding, StlError>)
    ensures
        !valid_utf8(header@) ==> r == Err::<Encoding, StlError>(StlError::HeaderNotText),
        valid_utf8(header@) && header@ == solid_word() ==> r == Ok::<Encoding, StlError>(
            Encoding::Ascii,
        ),
        valid_utf8(header@) && header@ != solid_word() ==> r == Ok::<Encoding, StlError>(
            Encoding::Binary,
        ),
{
    if !is_utf8(vstd::array::array_as_slice(header)) {
        return Err(StlError::HeaderNotText);
    }
    let is_solid = header[0] == 0x73 && header[1] == 0x6f && header[2] == 0x6c && header[3] == 0x69
        && header[4] == 0x64;
    assert(is_solid <==> header@ =~= solid_word());
    if is_solid {
        Ok(Encoding::Ascii)
    } else {
        Ok(Encoding::Binary)
    }
}

/// The number stored in the four bytes from `at` on.
fn read_u32_at(bytes: &[u8], at: usize) -> (r: u32)
    requires
        at + 4 <= bytes@.len() <= usize::MAX,
    ensures
        r == le_u32(bytes@, at as int),
{
    let word = slice_subrange(bytes, at, at + 4);
    read_u32_le(word)
}

/// The three coordinates stored from `at` on.
fn read_point_at(bytes: &[u8], at: usize) -> (r: Pt3)
    requires
        at + 12 <= bytes@.len() <= usize::MAX,
    ensures
        r == point_at(bytes@, at as int),
{
    Pt3([read_u32_at(bytes, at), read_u32_at(bytes, at + 4), read_u32_at(bytes, at + 8)])
}

/// Reads the facets of a binary file.
pub fn facets_from_binary_stl(bytes: &[u8]) -> (r: Result<Vec<Facet>, StlError>)
    ensures
        binary_is_complete(bytes@) ==> (r matches Ok(facets) && facets@ == binary_facets(bytes@)),
        !binary_is_complete(bytes@) ==> r == Err::<Vec<Facet>, StlError>(StlError::Truncated),
{
    let len = bytes.len();
    if len < BINARY_HEADER_LEN {
        return Err(StlError::Truncated);
    }
    let num_triangles = read_u32_at(bytes, 80);
    if num_triangles > 0 {
        let count: u64 = num_triangles as u64;
        let facet_len: u64 = BINARY_FACET_LEN as u64;
        assert(facet_len == 50);
        assert(facet_len * count <= 50 * 0xffff_ffff) by (nonlinear_arith)
            requires
                facet_len == 50,
                count <= 0xffff_ffff,
        ;
        let needed: u64 = BINARY_HEADER_LEN as u64 + facet_len * count - 2;
        if (len as u64) < needed {
            return Err(StlError::Truncated);
        }
    }
    let mut facets: Vec<Facet> = Vec::new();
    let mut k: u32 = 0;
    while k < num_triangles
        invariant
            num_triangles == binary_count(bytes@),
            binary_is_complete(bytes@),
            bytes@.len() <= usize::MAX,
            k <= num_triangles,
            facets@ =~= binary_facets(bytes@).take(k as int),
        decreases num_triangles - k,
    {
        assert(BINARY_HEADER_LEN == 84 && BINARY_FACET_LEN == 50);
        let at: usize = BINARY_HEADER_LEN + BINARY_FACET_LEN * (k as usize);
        let normal = read_point_at(bytes, at);
        let tri = [
            read_point_at(bytes, at + 12),
            read_point_at(bytes, at + 24),
            read_point_at(bytes, at + 36),
        ];
        facets.push(Facet { tri, normal });
        k = k + 1;
    }
    assert(facets@ =~= binary_facets(bytes@));
    Ok(facets)
}

/// `solid`
pub open spec fn solid_start() -> Seq<u8> {
    solid_word()
}

/// `facet normal`
pub open spec fn facet_start() -> Seq<u8> {
    seq![
        0x66u8, 0x61u8, 0x63u8, 0x65u8, 0x74u8, 0x20u8, 0x6eu8, 0x6fu8, 0x72u8, 0x6du8, 0x61u8,
        0x6cu8,
    ]
}

/// `endsolid`
pub open spec fn solid_end() -> Seq<u8> {
    seq![0x65u8, 0x6eu8, 0x64u8, 0x73u8, 0x6fu8, 0x6cu8, 0x69u8, 0x64u8]
}

/// `endfacet`
pub open spec fn facet_end() -> Seq<u8> {
    seq![0x65u8, 0x6eu8, 0x64u8, 0x66u8, 0x61u8, 0x63u8, 0x65u8, 0x74u8]
}

/// `outer loop`
pub open spec fn loop_start() -> Seq<u8> {
    seq![0x6fu8, 0x75u8, 0x74u8, 0x65u8, 0x72u8, 0x20u8, 0x6cu8, 0x6fu8, 0x6fu8, 0x70u8]
}

/// `endloop`
pub open spec fn loop_end() -> Seq<u8> {
    seq![0x65u8, 0x6eu8, 0x64u8, 0x6cu8, 0x6fu8, 0x6fu8, 0x70u8]
}

/// `vertex`
pub open spec fn vertex_word() -> Seq<u8> {
    seq![0x76u8, 0x65u8, 0x72u8, 0x74u8, 0x65u8, 0x78u8]
}

/// Whether a byte is a blank: a space, a tab, or one of the bytes that end a
/// line or a page.
pub open spec fn is_blank(b: u8) -> bool {
    b == 0x20 || 0x09 <= b <= 0x0d
}

/// Where the line that starts at `at` ends: at the next line feed, or with
/// the text.
pub open spec fn line_end(text: Seq<u8>, at: int) -> int
    decreases text.len() - at,
{
    if at >= text.len() || text[at] == 0x0a {
        at
    } else {
        line_end(text, at + 1)
    }
}

/// The first place from `start` on, and before `end`, that holds no blank;
/// `end` where there is none.
pub open spec fn skip_blanks(text: Seq<u8>, start: int, end: int) -> int
    decreases end - start,
{
    if start >= end || !is_blank(text[start]) {
        start
    } else {
        skip_blanks(text, start + 1, end)
    }
}

/// The first place from `start` on, and before `end`, that holds a blank;
/// `end` where there is none.
pub open spec fn skip_word(text: Seq<u8>, start: int, end: int) -> int
    decreases end - start,
{
    if start >= end || is_blank(text[start]) {
        start
    } else {
        skip_word(text, start + 1, end)
    }
}

/// The place behind the last byte between `start` and `end` that is no
/// blank; `start` where there is none.
pub open spec fn drop_blanks(text: Seq<u8>, start: int, end: int) -> int
    decreases end - start,
{
    if end <= start || !is_blank(text[end - 1]) {
        end
    } else {
        drop_blanks(text, start, end - 1)
    }
}

/// The stretch between `start` and `end` without the blanks at its ends.
pub open spec fn trimmed(text: Seq<u8>, start: int, end: int) -> Word {
    let first = skip_blanks(text, start, end);
    Word { start: first as usize, end: drop_blanks(text, first, end) as usize }
}

/// The words between `start` and `end`: the longest stretches without a
/// blank, in order.
pub open spec fn words(text: Seq<u8>, start: int, end: int) -> Seq<Word>
    decreases end - start,
{
    if start >= end {
        Seq::empty()
    } else if is_blank(text[start]) {
        words(text, start + 1, end)
    } else {
        let stop = skip_word(text, start + 1, end);
        if start < stop <= end {
            seq![Word { start: start as usize, end: stop as usize }] + words(text, stop, end)
        } else {
            Seq::empty()
        }
    }
}

/// The bytes of a stretch of the text.
pub open spec fn bytes_of(text: Seq<u8>, w: Word) -> Seq<u8> {
    text.subrange(w.start as int, w.end as int)
}

/// Whether a stretch of the text starts with the given bytes.
pub open spec fn starts_with(text: Seq<u8>, w: Word, prefix: Seq<u8>) -> bool {
    w.end - w.start >= prefix.len() && text.subrange(
        w.start as int,
        w.start + prefix.len(),
    ) == prefix
}

/// How far the reading of an ASCII file has come: what has to come next, the
/// facets that are complete, and of the facet that is being read the normal
/// and the corners read so far.
pub struct Progress {
    pub state: ParsingState,
    pub corner: usize,
    pub facet: AsciiFacet,
    pub facets: Seq<AsciiFacet>,
}

/// A facet of which nothing has been read: all its numbers are empty
/// stretches at the start of the text.
pub open spec fn blank_facet() -> AsciiFacet {
    let nothing = Word { start: 0, end: 0 };
    let numbers = [nothing, nothing, nothing];
    AsciiFacet { tri: [numbers, numbers, numbers], normal: numbers }
}

/// The state before the first line.
pub open spec fn at_start() -> Progress {
    Progress {
        state: ParsingState::ExpectingSolidStart,
        corner: 0,
        facet: blank_facet(),
        facets: Seq::empty(),
    }
}

/// The facet with corner `i` set to three numbers.
pub open spec fn with_corner(facet: AsciiFacet, i: int, numbers: [Word; 3]) -> AsciiFacet {
    AsciiFacet {
        tri: [
            if i == 0 {
                numbers
            } else {
                facet.tri[0]
            },
            if i == 1 {
                numbers
            } else {
                facet.tri[1]
            },
            if i == 2 {
                numbers
            } else {
                facet.tri[2]
            },
        ],
        normal: facet.normal,
    }
}

/// What one line does to the reading. `raw` is the line without the blanks
/// at its ends, `line` its number.
///
/// A file is `solid`, then facets, then `endsolid`. A facet is `facet normal`
/// with three numbers, `outer loop`, three lines of `vertex` with three
/// numbers each, `endloop` and `endfacet`. Of each line but those with
/// numbers only the start is looked at. A facet counts as read with its
/// third corner.
pub open spec fn after_line(text: Seq<u8>, raw: Word, line: usize, p: Progress) -> Result<
    Progress,
    StlError,
> {
    let parts = words(text, raw.start as int, raw.end as int);
    match p.state {
        ParsingState::Done => Ok(p),
        ParsingState::ExpectingSolidStart => if starts_with(text, raw, solid_start()) {
            Ok(Progress { state: ParsingState::ExpectingStartOfFacetOrEndOfSolid, ..p })
        } else {
            Err(StlError::UnexpectedToken { line, raw })
        },
        ParsingState::ExpectingStartOfFacetOrEndOfSolid => if starts_with(
            text,
            raw,
            facet_start(),
        ) {
            if parts.len() != 5 {
                Err(StlError::ExpectedNormal { line, raw })
            } else {
                Ok(
                    Progress {
                        state: ParsingState::ExpectingLoopStart,
                        facet: AsciiFacet {
                            tri: p.facet.tri,
                            normal: [parts[2], parts[3], parts[4]],
                        },
                        ..p
                    },
                )
            }
        } else if starts_with(text, raw, solid_end()) {
            Ok(Progress { state: ParsingState::Done, ..p })
        } else {
            Err(StlError::UnexpectedToken { line, raw })
        },
        ParsingState::ExpectingFacetEnd => if starts_with(text, raw, facet_end()) {
            Ok(Progress { state: ParsingState::ExpectingStartOfFacetOrEndOfSolid, ..p })
        } else {
            Err(StlError::UnexpectedToken { line, raw })
        },
        ParsingState::ExpectingLoopStart => if starts_with(text, raw, loop_start()) {
            Ok(Progress { state: ParsingState::ExpectingVertex, ..p })
        } else {
            Err(StlError::UnexpectedToken { line, raw })
        },
        ParsingState::ExpectingLoopEnd => if starts_with(text, raw, loop_end()) {
            Ok(Progress { state: ParsingState::ExpectingFacetEnd, ..p })
        } else {
            Err(StlError::UnexpectedToken { line, raw })
        },
        ParsingState::ExpectingVertex => if parts.len() != 4 || bytes_of(text, parts[0])
            != vertex_word() {
            Err(StlError::ExpectedVertex { line, raw })
        } else {
            let facet = with_corner(p.facet, p.corner as int, [parts[1], parts[2], parts[3]]);
            if p.corner >= 2 {
                Ok(
                    Progress {
                        state: ParsingState::ExpectingLoopEnd,
                        corner: 0,
                        facet,
                        facets: p.facets.push(facet),
                    },
                )
            } else {
                Ok(Progress { corner: (p.corner + 1) as usize, facet, ..p })
            }
        },
    }
}

/// What the text from `at` on, which starts line number `line`, adds to the
/// reading: line by line, until the text or the solid ends or a line is not
/// what has to come. A text that ends early gives the facets read so far.
pub open spec fn read_from(text: Seq<u8>, at: int, line: usize, p: Progress) -> Result<
    Seq<AsciiFacet>,
    StlError,
>
    decreases text.len() - at,
{
    if at >= text.len() || p.state == ParsingState::Done {
        Ok(p.facets)
    } else {
        let end = line_end(text, at);
        match after_line(text, trimmed(text, at, end), line, p) {
            Err(e) => Err(e),
            Ok(q) => if at <= end < text.len() {
                read_from(text, end + 1, (line + 1) as usize, q)
            } else {
                Ok(q.facets)
            },
        }
    }
}

/// The facets of an ASCII file.
pub open spec fn ascii_facets(text: Seq<u8>) -> Result<Seq<AsciiFacet>, StlError> {
    read_from(text, 0, 0, at_start())
}

/// A word ends behind its start, and not behind the end of the stretch
/// that it is looked for in.
pub proof fn lemma_skip_word_bounds(text: Seq<u8>, start: int, end: int)
    requires
        start <= end,
    ensures
        start <= skip_word(text, start, end) <= end,
    decreases end - start,
{
    if start < end && !is_blank(text[start]) {
        lemma_skip_word_bounds(text, start + 1, end);
    }
}

/// Every word lies in the stretch that it was found in, and holds at least
/// one byte.
pub proof fn lemma_words_bounds(text: Seq<u8>, start: int, end: int)
    requires
        0 <= start <= end <= usize::MAX,
    ensures
        forall|i: int|
            0 <= i < words(text, start, end).len() ==> start <= (#[trigger] words(
                text,
                start,
                end,
            )[i]).start < words(text, start, end)[i].end <= end,
    decreases end - start,
{
    let all = words(text, start, end);
    if start < end {
        if is_blank(text[start]) {
            lemma_words_bounds(text, start + 1, end);
            let rest = words(text, start + 1, end);
            assert(all == rest);
            assert forall|i: int| 0 <= i < all.len() implies start <= (#[trigger] all[i]).start
                < all[i].end <= end by {
                assert(all[i] == rest[i]);
            }
        } else {
            let stop = skip_word(text, start + 1, end);
            lemma_skip_word_bounds(text, start + 1, end);
            lemma_words_bounds(text, stop, end);
            let rest = words(text, stop, end);
            let first = Word { start: start as usize, end: stop as usize };
            assert(all == seq![first] + rest);
            assert forall|i: int| 0 <= i < all.len() implies start <= (#[trigger] all[i]).start
                < all[i].end <= end by {
                if i > 0 {
                    assert(all[i] == rest[i - 1]);
                } else {
                    assert(all[i] == first);
                }
            }
        }
    } else {
        assert(all.len() == 0);
    }
}

/// Where the line that starts at `at` ends.
fn find_line_end(text: &[u8], at: usize) -> (end: usize)
    requires
        at <= text@.len(),
    ensures
        end == line_end(text@, at as int),
        at <= end <= text@.len(),
{
    let mut i = at;
    while i < text.len() && text[i] != 0x0a
        invariant
            at <= i <= text@.len(),
            line_end(text@, at as int) == line_end(text@, i as int),
        decreases text@.len() - i,
    {
        i = i + 1;
    }
    i
}

/// Whether a byte is a blank.
fn blank(b: u8) -> (r: bool)
    ensures
        r == is_blank(b),
{
    b == 0x20 || (0x09 <= b && b <= 0x0d)
}

/// The stretch between `start` and `end` without the blanks at its ends.
fn trim(text: &[u8], start: usize, end: usize) -> (w: Word)
    requires
        start <= end <= text@.len(),
    ensures
        w == trimmed(text@, start as int, end as int),
        start <= w.start <= w.end <= end,
{
    let mut first = start;
    while first < end && blank(text[first])
        invariant
            start <= first <= end <= text@.len(),
            skip_blanks(text@, start as int, end as int) == skip_blanks(
                text@,
                first as int,
                end as int,
            ),
        decreases end - first,
    {
        first = first + 1;
    }
    let mut last = end;
    while first < last && blank(text[last - 1])
        invariant
            first <= last <= end <= text@.len(),
            drop_blanks(text@, first as int, end as int) == drop_blanks(
                text@,
                first as int,
                last as int,
            ),
        decreases last - first,
    {
        last = last - 1;
    }
    Word { start: first, end: last }
}

/// Whether a stretch of the text starts with the given bytes.
fn has_prefix(text: &[u8], w: Word, prefix: &Vec<u8>) -> (r: bool)
    requires
        w.start <= w.end <= text@.len(),
    ensures
        r == starts_with(text@, w, prefix@),
{
    if w.end - w.start < prefix.len() {
        return false;
    }
    let mut i: usize = 0;
    while i < prefix.len()
        invariant
            w.start <= w.end <= text@.len(),
            w.end - w.start >= prefix@.len(),
            i <= prefix@.len(),
            text@.subrange(w.start as int, w.start + i) == prefix@.take(i as int),
        decreases prefix@.len() - i,
    {
        if text[w.start + i] != prefix[i] {
            assert(text@.subrange(w.start as int, w.start + prefix@.len())[i as int]
                != prefix@[i as int]);
            return false;
        }
        assert(text@.subrange(w.start as int, w.start + i + 1) =~= text@.subrange(
            w.start as int,
            w.start + i,
        ).push(text@[w.start + i]));
        assert(prefix@.take(i + 1) =~= prefix@.take(i as int).push(prefix@[i as int]));
        i = i + 1;
    }
    assert(prefix@.take(prefix@.len() as int) =~= prefix@);
    true
}

/// Whether a stretch of the text is the given bytes.
fn word_is(text: &[u8], w: Word, word: &Vec<u8>) -> (r: bool)
    requires
        w.start <= w.end <= text@.len(),
    ensures
        r == (bytes_of(text@, w) == word@),
{
    if w.end - w.start != word.len() {
        return false;
    }
    let same = has_prefix(text, w, word);
    assert(text@.subrange(w.start as int, w.start + word@.len()) == bytes_of(text@, w));
    same
}

/// The words of a stretch of the text.
fn split_words(text: &[u8], w: Word) -> (parts: Vec<Word>)
    requires
        w.start <= w.end <= text@.len(),
    ensures
        parts@ == words(text@, w.start as int, w.end as int),
        forall|i: int|
            0 <= i < parts@.len() ==> w.start <= (#[trigger] parts@[i]).start < parts@[i].end
                <= w.end,
{
    let mut parts: Vec<Word> = Vec::new();
    let mut at = w.start;
    while at < w.end
        invariant
            w.start <= at <= w.end <= text@.len(),
            words(text@, w.start as int, w.end as int) == parts@ + words(
                text@,
                at as int,
                w.end as int,
            ),
        decreases w.end - at,
    {
        if blank(text[at]) {
            at = at + 1;
        } else {
            let mut stop = at + 1;
            while stop < w.end && !blank(text[stop])
                invariant
                    at < stop <= w.end <= text@.len(),
                    skip_word(text@, at + 1, w.end as int) == skip_word(
                        text@,
                        stop as int,
                        w.end as int,
                    ),
                decreases w.end - stop,
            {
                stop = stop + 1;
            }
            let ghost rest = words(text@, stop as int, w.end as int);
            let ghost found = Word { start: at, end: stop };
            assert(words(text@, at as int, w.end as int) == seq![found] + rest);
            assert(parts@ + (seq![found] + rest) =~= parts@.push(found) + rest);
            parts.push(Word { start: at, end: stop });
            at = stop;
        }
    }
    proof {
        assert(parts@ + Seq::<Word>::empty() =~= parts@);
        lemma_words_bounds(text@, w.start as int, w.end as int);
    }
    parts
}

/// The reading of an ASCII file, line by line.
struct Reader {
    state: ParsingState,
    current_vertex_i: usize,
    current_facet: AsciiFacet,
    facets: Vec<AsciiFacet>,
}

impl Reader {
    /// How far the reading has come.
    spec fn progress(self) -> Progress {
        Progress {
            state: self.state,
            corner: self.current_vertex_i,
            facet: self.current_facet,
            facets: self.facets@,
        }
    }

    /// Takes in the next line, given without the blanks at its ends.
    fn read_line(&mut self, text: &[u8], raw: Word, i: usize) -> (r: Result<(), StlError>)
        requires
            raw.start <= raw.end <= text@.len(),
            old(self).current_vertex_i < 3,
        ensures
            final(self).current_vertex_i < 3,
            match after_line(text@, raw, i, old(self).progress()) {
                Ok(next) => r.is_ok() && final(self).progress() == next,
                Err(e) => r == Err::<(), StlError>(e),
            },
    {
        match self.state {
            ParsingState::Done => {},
            ParsingState::ExpectingSolidStart => {
                let word: Vec<u8> = vec![0x73, 0x6f, 0x6c, 0x69, 0x64];
                assert(word@ =~= solid_start());
                if !has_prefix(text, raw, &word) {
                    return Err(StlError::UnexpectedToken { line: i, raw });
                }
                self.state = ParsingState::ExpectingStartOfFacetOrEndOfSolid;
            },
            ParsingState::ExpectingStartOfFacetOrEndOfSolid => {
                let facet: Vec<u8> = vec![
                    0x66, 0x61, 0x63, 0x65, 0x74, 0x20, 0x6e, 0x6f, 0x72, 0x6d, 0x61, 0x6c,
                ];
                let endsolid: Vec<u8> = vec![0x65, 0x6e, 0x64, 0x73, 0x6f, 0x6c, 0x69, 0x64];
                assert(facet@ =~= facet_start());
                assert(endsolid@ =~= solid_end());
                if has_prefix(text, raw, &facet) {
                    let parts = split_words(text, raw);
                    if parts.len() != 5 {
                        return Err(StlError::ExpectedNormal { line: i, raw });
                    }
                    self.state = ParsingState::ExpectingLoopStart;
                    self.current_facet.normal = [parts[2], parts[3], parts[4]];
                } else if has_prefix(text, raw, &endsolid) {
                    self.state = ParsingState::Done;
                } else {
                    return Err(StlError::UnexpectedToken { line: i, raw });
                }
            },
            ParsingState::ExpectingFacetEnd => {
                let word: Vec<u8> = vec![0x65, 0x6e, 0x64, 0x66, 0x61, 0x63, 0x65, 0x74];
                assert(word@ =~= facet_end());
                if !has_prefix(text, raw, &word) {
                    return Err(StlError::UnexpectedToken { line: i, raw });
                }
                self.state = ParsingState::ExpectingStartOfFacetOrEndOfSolid;
            },
            ParsingState::ExpectingLoopStart => {
                let word: Vec<u8> = vec![
                    0x6f, 0x75, 0x74, 0x65, 0x72, 0x20, 0x6c, 0x6f, 0x6f, 0x70,
                ];
                assert(word@ =~= loop_start());
                if !has_prefix(text, raw, &word) {
                    return Err(StlError::UnexpectedToken { line: i, raw });
                }
                self.state = ParsingState::ExpectingVertex;
            },
            ParsingState::ExpectingLoopEnd => {
                let word: Vec<u8> = vec![0x65, 0x6e, 0x64, 0x6c, 0x6f, 0x6f, 0x70];
                assert(word@ =~= loop_end());
                if !has_prefix(text, raw, &word) {
                    return Err(StlError::UnexpectedToken { line: i, raw });
                }
                self.state = ParsingState::ExpectingFacetEnd;
            },
            ParsingState::ExpectingVertex => {
                let word: Vec<u8> = vec![0x76, 0x65, 0x72, 0x74, 0x65, 0x78];
                assert(word@ =~= vertex_word());
                let parts = split_words(text, raw);
                if parts.len() != 4 {
                    return Err(StlError::ExpectedVertex { line: i, raw });
                } else if !word_is(text, parts[0], &word) {
                    return Err(StlError::ExpectedVertex { line: i, raw });
                }
                let ghost before = self.current_facet;
                self.current_facet.tri[self.current_vertex_i] = [parts[1], parts[2], parts[3]];
                proof {
                    let numbers = [parts@[1], parts@[2], parts@[3]];
                    let after = with_corner(before, self.current_vertex_i as int, numbers);
                    assert(self.current_facet.tri =~= after.tri);
                }
                self.current_vertex_i = self.current_vertex_i + 1;
                if self.current_vertex_i == 3 {
                    self.current_vertex_i = 0;
                    self.state = ParsingState::ExpectingLoopEnd;
                    self.facets.push(self.current_facet);
                }
            },
        }
        Ok(())
    }
}

/// Reads the facets of an ASCII file: for each the places in the text where
/// the numbers of its normal and of its corners stand.
pub fn facets_from_ascii_stl(text: &[u8]) -> (r: Result<Vec<AsciiFacet>, StlError>)
    ensures
        match ascii_facets(text@) {
            Ok(facets) => r matches Ok(read) && read@ == facets,
            Err(e) => r == Err::<Vec<AsciiFacet>, StlError>(e),
        },
{
    let nothing = Word { start: 0, end: 0 };
    let numbers = [nothing, nothing, nothing];
    let mut reader = Reader {
        state: ParsingState::ExpectingSolidStart,
        current_vertex_i: 0,
        current_facet: AsciiFacet { tri: [numbers, numbers, numbers], normal: numbers },
        facets: Vec::new(),
    };
    assert(reader.progress() == at_start());
    let mut at: usize = 0;
    let mut i: usize = 0;
    while at < text.len() && reader.state != ParsingState::Done
        invariant
            i <= at <= text@.len(),
            reader.current_vertex_i < 3,
            ascii_facets(text@) == read_from(text@, at as int, i, reader.progress()),
        decreases text@.len() - at,
    {
        let end = find_line_end(text, at);
        let raw = trim(text, at, end);
        match reader.read_line(text, raw, i) {
            Err(e) => {
                return Err(e);
            },
            Ok(_) => {},
        }
        if end < text.len() {
            at = end + 1;
        } else {
            at = end;
        }
        i = i + 1;
    }
    Ok(reader.facets)
}

} // verus!
