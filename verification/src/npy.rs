//! Arrays in NumPy's file format.
//!
//! A file is a magic string, a version, the length of a textual header, the header, and the
//! elements. Bytes of the header that are not text stand for nothing that it looks for.
use crate::text::{find, find_byte, parse_number, same_bytes, trim};
use crate::text::{first_at, number, trimmed};
#[allow(unused_imports)]
use crate::text::{first_at_is_the_first, trimming_drops_blanks, trimming_keeps_the_visible};
#[allow(unused_imports)]
use vstd::arithmetic::power::pow;
use vstd::prelude::*;
use vstd::slice::slice_subrange;
#[allow(unused_imports)]
use vstd::string::StringSliceAdditionalSpecFns;

verus! {

/// Why a file is refused.
#[derive(Debug, Clone, Copy, PartialEq, Eq, Structural)]
pub enum NpyError {
    /// It ends before what it announces.
    Truncated,
    /// It does not start with the magic string.
    NotNumpy,
    /// The elements are laid out by columns.
    FortranOrder,
    /// The header names no element type.
    NoDescr,
    /// The quote behind the element type is missing.
    UnclosedDescr,
    /// The elements are big-endian.
    BigEndian,
    /// The element type is not known.
    UnknownDtype,
    /// The header names no shape.
    NoShape,
    /// The bracket behind the shape is missing.
    UnclosedShape,
    /// The shape holds something that is not a number.
    BadShape,
    /// The array has another number of dimensions than is wanted.
    WrongDimensions,
    /// The elements have another size than is wanted.
    WrongElementSize,
    /// The array has another length than is wanted.
    WrongLength,
}

/// The byte of a single quote.
pub const QUOTE: u8 = 0x27;

/// The byte of a closing round bracket.
pub const CLOSE: u8 = 0x29;

/// The byte of a comma.
pub const COMMA: u8 = 0x2C;

/// The size of an element of the given type code.
pub open spec fn elem_size(code: Seq<u8>) -> Option<usize> {
    if code == "i1".spec_bytes() || code == "u1".spec_bytes() || code == "b1".spec_bytes() {
        Some(1)
    } else if code == "i2".spec_bytes() || code == "u2".spec_bytes() || code == "f2".spec_bytes() {
        Some(2)
    } else if code == "i4".spec_bytes() || code == "u4".spec_bytes() || code == "f4".spec_bytes() {
        Some(4)
    } else if code == "i8".spec_bytes() || code == "u8".spec_bytes() || code == "f8".spec_bytes() {
        Some(8)
    } else {
        None
    }
}

/// The size of an element of the given type code, in bytes.
pub fn dtype_elem_size(code: &[u8]) -> (size: Option<usize>)
    ensures
        size == elem_size(code@),
{
    if same_bytes(code, "i1".as_bytes()) || same_bytes(code, "u1".as_bytes()) || same_bytes(
        code,
        "b1".as_bytes(),
    ) {
        Some(1)
    } else if same_bytes(code, "i2".as_bytes()) || same_bytes(code, "u2".as_bytes()) || same_bytes(
        code,
        "f2".as_bytes(),
    ) {
        Some(2)
    } else if same_bytes(code, "i4".as_bytes()) || same_bytes(code, "u4".as_bytes()) || same_bytes(
        code,
        "f4".as_bytes(),
    ) {
        Some(4)
    } else if same_bytes(code, "i8".as_bytes()) || same_bytes(code, "u8".as_bytes()) || same_bytes(
        code,
        "f8".as_bytes(),
    ) {
        Some(8)
    } else {
        None
    }
}

/// A mark of byte order that little-endian elements may carry: `<`, `=` or `|`.
pub open spec fn is_order_mark(b: u8) -> bool {
    b == 0x3C || b == 0x3D || b == 0x7C
}

/// The type without marks of byte order in front.
pub open spec fn without_marks(descr: Seq<u8>) -> Seq<u8>
    decreases descr.len(),
{
    if descr.len() > 0 && is_order_mark(descr[0]) {
        without_marks(descr.skip(1))
    } else {
        descr
    }
}

/// The dimensions in one piece of the shape: none where it is blank.
pub open spec fn piece_dims(piece: Seq<u8>) -> Option<Seq<usize>> {
    if trimmed(piece).len() == 0 {
        Some(Seq::empty())
    } else {
        match number(trimmed(piece)) {
            Some(v) => Some(seq![v]),
            None => None,
        }
    }
}

/// `front` and then `back`, where both are there.
pub open spec fn both(front: Option<Seq<usize>>, back: Option<Seq<usize>>) -> Option<Seq<usize>> {
    match (front, back) {
        (Some(a), Some(b)) => Some(a + b),
        _ => None,
    }
}

/// The dimensions that the text between the brackets lists, separated by commas.
pub open spec fn dims(list: Seq<u8>) -> Option<Seq<usize>>
    decreases list.len(),
{
    proof {
        list.index_of_first_ensures(COMMA);
    }
    match list.index_of_first(COMMA) {
        None => piece_dims(list),
        Some(c) => both(piece_dims(list.take(c)), dims(list.skip(c + 1))),
    }
}

/// The shape and the element size that the header gives, or what is wrong with it.
pub open spec fn header_of(text: Seq<u8>) -> Result<(Seq<usize>, usize), NpyError> {
    if first_at(text, "'fortran_order': True".spec_bytes(), 0) is Some {
        Err(NpyError::FortranOrder)
    } else {
        match first_at(text, "'descr': '".spec_bytes(), 0) {
            None => Err(NpyError::NoDescr),
            Some(d) => {
                let rest = text.skip(d + "'descr': '".spec_bytes().len());
                match rest.index_of_first(QUOTE) {
                    None => Err(NpyError::UnclosedDescr),
                    Some(end) => header_behind_descr(text, rest.take(end)),
                }
            },
        }
    }
}

/// The same, once the element type is known.
pub open spec fn header_behind_descr(text: Seq<u8>, descr: Seq<u8>) -> Result<
    (Seq<usize>, usize),
    NpyError,
> {
    if descr.len() > 0 && descr[0] == 0x3E {
        Err(NpyError::BigEndian)
    } else {
        match elem_size(without_marks(descr)) {
            None => Err(NpyError::UnknownDtype),
            Some(size) => match first_at(text, "'shape': (".spec_bytes(), 0) {
                None => Err(NpyError::NoShape),
                Some(s) => {
                    let rest = text.skip(s + "'shape': (".spec_bytes().len());
                    match rest.index_of_first(CLOSE) {
                        None => Err(NpyError::UnclosedShape),
                        Some(end) => match dims(rest.take(end)) {
                            None => Err(NpyError::BadShape),
                            Some(shape) => Ok((shape, size)),
                        },
                    }
                },
            },
        }
    }
}

/// The type without marks of byte order in front.
fn strip_marks(descr: &[u8]) -> (code: &[u8])
    ensures
        code@ == without_marks(descr@),
{
    let mut i: usize = 0;
    assert(descr@.skip(0) =~= descr@);
    while i < descr.len() && (descr[i] == 0x3C || descr[i] == 0x3D || descr[i] == 0x7C)
        invariant
            i <= descr@.len(),
            without_marks(descr@) == without_marks(descr@.skip(i as int)),
        decreases descr@.len() - i,
    {
        assert(descr@.skip(i as int).skip(1) =~= descr@.skip(i + 1));
        i += 1;
    }
    let code: &[u8] = slice_subrange(descr, i, descr.len());
    assert(code@ =~= descr@.skip(i as int));
    code
}

/// The dimensions that the text between the brackets lists.
fn parse_dims(list: &[u8]) -> (r: Option<Vec<usize>>)
    ensures
        match r {
            Some(shape) => dims(list@) == Some(shape@),
            None => dims(list@) is None,
        },
{
    let mut shape: Vec<usize> = Vec::new();
    let mut at: usize = 0;
    proof {
        assert(list@.skip(0) =~= list@);
        if dims(list@) is Some {
            assert(Seq::<usize>::empty() + dims(list@).unwrap() =~= dims(list@).unwrap());
        }
    }
    loop
        invariant
            at <= list@.len(),
            dims(list@) == both(Some(shape@), dims(list@.skip(at as int))),
        decreases list@.len() - at,
    {
        let rest: &[u8] = slice_subrange(list, at, list.len());
        assert(rest@ =~= list@.skip(at as int));
        let comma: Option<usize> = find_byte(rest, COMMA);
        let end: usize = match comma {
            Some(c) => c,
            None => rest.len(),
        };
        let piece: &[u8] = slice_subrange(rest, 0, end);
        assert(piece@ =~= rest@.take(end as int));
        assert(rest@.take(rest@.len() as int) =~= rest@);
        let word: &[u8] = trim(piece);
        let ghost before = shape@;
        if word.len() > 0 {
            match parse_number(word) {
                Some(v) => {
                    shape.push(v);
                    assert(shape@ =~= before + seq![v]);
                },
                None => {
                    return None;
                },
            }
        } else {
            assert(before + Seq::<usize>::empty() =~= before);
        }
        match comma {
            None => {
                return Some(shape);
            },
            Some(c) => {
                assert(rest@.skip(c + 1) =~= list@.skip(at + c + 1));
                proof {
                    let tail = dims(list@.skip(at + c + 1));
                    let here = piece_dims(piece@).unwrap();
                    if tail is Some {
                        assert(before + (here + tail.unwrap()) =~= (before + here) + tail.unwrap());
                    }
                }
                at = at + c + 1;
            },
        }
    }
}

/// The shape and the element size that a header gives.
pub fn parse_header_text(text: &[u8]) -> (r: Result<(Vec<usize>, usize), NpyError>)
    ensures
        match r {
            Ok((shape, size)) => header_of(text@) == Ok::<(Seq<usize>, usize), NpyError>(
                (shape@, size),
            ),
            Err(e) => header_of(text@) == Err::<(Seq<usize>, usize), NpyError>(e),
        },
{
    assert(text.len() == text@.len());
    if find(text, "'fortran_order': True".as_bytes()).is_some() {
        return Err(NpyError::FortranOrder);
    }
    let prefix: &[u8] = "'descr': '".as_bytes();
    let rest: &[u8] = match find(text, prefix) {
        None => {
            return Err(NpyError::NoDescr);
        },
        Some(d) => slice_subrange(text, d + prefix.len(), text.len()),
    };
    assert(rest@ =~= text@.skip(first_at(text@, prefix@, 0).unwrap() + prefix@.len()));
    let descr: &[u8] = match find_byte(rest, QUOTE) {
        None => {
            return Err(NpyError::UnclosedDescr);
        },
        Some(end) => slice_subrange(rest, 0, end),
    };
    assert(descr@ =~= rest@.take(rest@.index_of_first(QUOTE).unwrap()));
    if descr.len() > 0 && descr[0] == 0x3E {
        return Err(NpyError::BigEndian);
    }
    let size: usize = match dtype_elem_size(strip_marks(descr)) {
        None => {
            return Err(NpyError::UnknownDtype);
        },
        Some(size) => size,
    };
    let token: &[u8] = "'shape': (".as_bytes();
    let behind: &[u8] = match find(text, token) {
        None => {
            return Err(NpyError::NoShape);
        },
        Some(s) => slice_subrange(text, s + token.len(), text.len()),
    };
    assert(behind@ =~= text@.skip(first_at(text@, token@, 0).unwrap() + token@.len()));
    let list: &[u8] = match find_byte(behind, CLOSE) {
        None => {
            return Err(NpyError::UnclosedShape);
        },
        Some(end) => slice_subrange(behind, 0, end),
    };
    assert(list@ =~= behind@.take(behind@.index_of_first(CLOSE).unwrap()));
    match parse_dims(list) {
        Some(shape) => Ok((shape, size)),
        None => Err(NpyError::BadShape),
    }
}

// ---------------------------------------------------------------------------
// Files
// ---------------------------------------------------------------------------

/// The number that `width` bytes from `at` on write, the least significant first.
pub open spec fn little_endian(bytes: Seq<u8>, at: int, width: int) -> int
    decreases width,
{
    if width <= 0 {
        0
    } else {
        bytes[at] + 256 * little_endian(bytes, at + 1, width - 1)
    }
}

/// The bytes start with the magic string.
pub open spec fn has_magic(bytes: Seq<u8>) -> bool {
    bytes.len() >= 6 && bytes[0] == 0x93 && bytes.subrange(1, 6) == "NUMPY".spec_bytes()
}

/// Where the header starts: its length takes up two bytes in the first version of the format
/// and four in later ones.
pub open spec fn header_start(bytes: Seq<u8>) -> int {
    if bytes[6] == 1 {
        10
    } else {
        12
    }
}

/// How long the header is.
pub open spec fn header_len(bytes: Seq<u8>) -> int {
    little_endian(bytes, 8, header_start(bytes) - 8)
}

/// The shape, the element size and where the elements start, or what is wrong with the file.
pub open spec fn file_header(bytes: Seq<u8>) -> Result<(Seq<usize>, usize, usize), NpyError> {
    if bytes.len() < 6 {
        Err(NpyError::Truncated)
    } else if !has_magic(bytes) {
        Err(NpyError::NotNumpy)
    } else if bytes.len() < 8 || bytes.len() < header_start(bytes) || bytes.len() < header_start(
        bytes,
    ) + header_len(bytes) {
        Err(NpyError::Truncated)
    } else {
        let end = header_start(bytes) + header_len(bytes);
        match header_of(bytes.subrange(header_start(bytes), end)) {
            Ok((shape, size)) => Ok((shape, size, end as usize)),
            Err(e) => Err(e),
        }
    }
}

proof fn lemma_le_bounds(bytes: Seq<u8>, at: int, width: int)
    requires
        width == 2 || width == 4 || width == 8,
        0 <= at,
        at + width <= bytes.len(),
    ensures
        0 <= little_endian(bytes, at, width),
        width == 2 ==> little_endian(bytes, at, 2) == bytes[at] + 256 * bytes[at + 1],
        width == 4 ==> little_endian(bytes, at, 4) == bytes[at] + 256 * bytes[at + 1] + 65536
            * bytes[at + 2] + 16777216 * bytes[at + 3],
        width == 8 ==> little_endian(bytes, at, 8) == little_endian(bytes, at, 4) + 4294967296
            * little_endian(bytes, at + 4, 4) && 0 <= little_endian(bytes, at + 4, 4) <= u32::MAX
            && 0 <= little_endian(bytes, at, 4) <= u32::MAX,
        width == 4 ==> little_endian(bytes, at, 4) <= u32::MAX,
        width == 8 ==> little_endian(bytes, at, 8) <= u64::MAX,
{
    reveal_with_fuel(little_endian, 10);
}

fn read_u16(bytes: &[u8], at: usize) -> (v: u16)
    requires
        at + 2 <= bytes@.len(),
    ensures
        v == little_endian(bytes@, at as int, 2),
{
    assert(bytes.len() == bytes@.len());
    proof {
        lemma_le_bounds(bytes@, at as int, 2);
    }
    bytes[at] as u16 + 256 * bytes[at + 1] as u16
}

fn read_u32(bytes: &[u8], at: usize) -> (v: u32)
    requires
        at + 4 <= bytes@.len(),
    ensures
        v == little_endian(bytes@, at as int, 4),
{
    assert(bytes.len() == bytes@.len());
    proof {
        lemma_le_bounds(bytes@, at as int, 4);
    }
    bytes[at] as u32 + 256 * bytes[at + 1] as u32 + 65536 * bytes[at + 2] as u32 + 16777216
        * bytes[at + 3] as u32
}

fn read_u64(bytes: &[u8], at: usize) -> (v: u64)
    requires
        at + 8 <= bytes@.len(),
    ensures
        v == little_endian(bytes@, at as int, 8),
{
    assert(bytes.len() == bytes@.len());
    proof {
        lemma_le_bounds(bytes@, at as int, 8);
    }
    read_u32(bytes, at) as u64 + 4294967296 * read_u32(bytes, at + 4) as u64
}

/// The shape, the element size and where the elements start.
pub fn parse_npy_header(bytes: &[u8]) -> (r: Result<(Vec<usize>, usize, usize), NpyError>)
    ensures
        match r {
            Ok((shape, size, start)) => file_header(bytes@) == Ok::<
                (Seq<usize>, usize, usize),
                NpyError,
            >((shape@, size, start)) && start <= bytes@.len(),
            Err(e) => file_header(bytes@) == Err::<(Seq<usize>, usize, usize), NpyError>(e),
        },
{
    assert(bytes.len() == bytes@.len());
    if bytes.len() < 6 {
        return Err(NpyError::Truncated);
    }
    if bytes[0] != 0x93 || !same_bytes(slice_subrange(bytes, 1, 6), "NUMPY".as_bytes()) {
        return Err(NpyError::NotNumpy);
    }
    if bytes.len() < 8 {
        return Err(NpyError::Truncated);
    }
    let start: usize = if bytes[6] == 1 {
        10
    } else {
        12
    };
    if bytes.len() < start {
        return Err(NpyError::Truncated);
    }
    let len: usize = if bytes[6] == 1 {
        read_u16(bytes, 8) as usize
    } else {
        read_u32(bytes, 8) as usize
    };
    if bytes.len() - start < len {
        return Err(NpyError::Truncated);
    }
    let end: usize = start + len;
    match parse_header_text(slice_subrange(bytes, start, end)) {
        Ok((shape, size)) => Ok((shape, size, end)),
        Err(e) => Err(e),
    }
}

/// How the bytes of an element are read.
#[derive(Debug, Clone, Copy, PartialEq, Eq, Structural)]
pub enum Element {
    /// As a number without sign.
    Unsigned,
    /// As a number with sign. A negative one becomes a large `usize`.
    Signed,
}

/// Element `i` of those that start at `start`. A number past the `usize` keeps its low bits.
pub open spec fn element(bytes: Seq<u8>, start: int, size: int, kind: Element, i: int) -> usize {
    let value = little_endian(bytes, start + i * size, size);
    if size == 8 {
        value as u64 as usize
    } else if kind == Element::Signed {
        (value as u32 as i32) as usize
    } else {
        value as u32 as usize
    }
}

/// `n` elements, of those that start at `start`.
fn read_elements(bytes: &[u8], start: usize, size: usize, kind: Element, n: usize) -> (r: Vec<usize>)
    requires
        size == 4 || size == 8,
        start + n * size <= bytes@.len(),
    ensures
        r@ == Seq::new(
            n as nat,
            |i: int| element(bytes@, start as int, size as int, kind, i),
        ),
{
    assert(bytes.len() == bytes@.len());
    let ghost wanted = Seq::new(
        n as nat,
        |i: int| element(bytes@, start as int, size as int, kind, i),
    );
    let mut r: Vec<usize> = Vec::with_capacity(n);
    let mut i: usize = 0;
    while i < n
        invariant
            i <= n,
            size == 4 || size == 8,
            start + n * size <= bytes@.len() <= usize::MAX,
            wanted == Seq::new(
                n as nat,
                |i: int| element(bytes@, start as int, size as int, kind, i),
            ),
            r@ == wanted.take(i as int),
        decreases n - i,
    {
        assert(0 <= i * size && i * size + size <= n * size) by (nonlinear_arith)
            requires
                0 <= i < n,
                0 <= size,
        ;
        let at: usize = start + i * size;
        proof {
            lemma_le_bounds(bytes@, at as int, size as int);
        }
        let value: usize = if size == 8 {
            let wide: u64 = read_u64(bytes, at);
            #[verifier::truncate]
            (wide as usize)
        } else {
            let narrow: u32 = read_u32(bytes, at);
            if kind == Element::Signed {
                #[verifier::truncate]
                ((narrow as i32) as usize)
            } else {
                narrow as usize
            }
        };
        r.push(value);
        i += 1;
        assert(r@ =~= wanted.take(i as int));
    }
    assert(wanted.take(i as int) =~= wanted);
    r
}

/// The elements of the file, which hold as many bytes as it says.
pub open spec fn has_payload(bytes: Seq<u8>, start: int, count: int, size: int) -> bool {
    start + count * size <= bytes.len()
}

/// `count` elements of `size` bytes follow `start`.
fn payload_fits(bytes: &[u8], start: usize, count: usize, size: usize) -> (fits: bool)
    requires
        start <= bytes@.len(),
        size > 0,
    ensures
        fits == has_payload(bytes@, start as int, count as int, size as int),
{
    let room: usize = (bytes.len() - start) / size;
    proof {
        let (left, c, s) = (bytes@.len() - start, count as int, size as int);
        vstd::arithmetic::div_mod::lemma_fundamental_div_mod(left, s);
        assert(c <= left / s <==> c * s <= left) by (nonlinear_arith)
            requires
                s > 0,
                left == s * (left / s) + left % s,
                0 <= left % s < s,
        ;
    }
    count <= room
}

/// What a file of half-precision vectors holds: the elements, as bit patterns, and how many
/// a vector has.
pub open spec fn vectors_of(bytes: Seq<u8>) -> Result<(Seq<u16>, usize), NpyError> {
    match file_header(bytes) {
        Err(e) => Err(e),
        Ok((shape, size, start)) => if shape.len() != 2 {
            Err(NpyError::WrongDimensions)
        } else if size != 2 {
            Err(NpyError::WrongElementSize)
        } else if !has_payload(bytes, start as int, shape[0] * shape[1], 2) {
            Err(NpyError::Truncated)
        } else {
            Ok(
                (
                    Seq::new(
                        (shape[0] * shape[1]) as nat,
                        |i: int| little_endian(bytes, start + i * 2, 2) as u16,
                    ),
                    shape[1],
                ),
            )
        },
    }
}

/// Reads a file of half-precision vectors.
pub fn read_f16_npy(bytes: &[u8]) -> (r: Result<(Vec<u16>, usize), NpyError>)
    ensures
        match r {
            Ok((data, dim)) => vectors_of(bytes@) == Ok::<(Seq<u16>, usize), NpyError>(
                (data@, dim),
            ),
            Err(e) => vectors_of(bytes@) == Err::<(Seq<u16>, usize), NpyError>(e),
        },
{
    assert(bytes.len() == bytes@.len());
    let (shape, size, start): (Vec<usize>, usize, usize) = match parse_npy_header(bytes) {
        Ok(header) => header,
        Err(e) => {
            return Err(e);
        },
    };
    if shape.len() != 2 {
        return Err(NpyError::WrongDimensions);
    }
    if size != 2 {
        return Err(NpyError::WrongElementSize);
    }
    let (n_vecs, dim): (usize, usize) = (shape[0], shape[1]);
    assert(n_vecs * dim >= 0) by (nonlinear_arith);
    let n: usize = match n_vecs.checked_mul(dim) {
        Some(n) => n,
        None => {
            return Err(NpyError::Truncated);
        },
    };
    if !payload_fits(bytes, start, n, 2) {
        return Err(NpyError::Truncated);
    }
    let ghost wanted = Seq::new(
        n as nat,
        |i: int| little_endian(bytes@, start + i * 2, 2) as u16,
    );
    let mut data: Vec<u16> = Vec::with_capacity(n);
    let mut i: usize = 0;
    while i < n
        invariant
            i <= n,
            start + n * 2 <= bytes@.len() <= usize::MAX,
            wanted == Seq::new(
                n as nat,
                |i: int| little_endian(bytes@, start + i * 2, 2) as u16,
            ),
            data@ == wanted.take(i as int),
        decreases n - i,
    {
        data.push(read_u16(bytes, start + i * 2));
        i += 1;
        assert(data@ =~= wanted.take(i as int));
    }
    assert(wanted.take(i as int) =~= wanted);
    Ok((data, dim))
}

/// What a file of one number per item holds, its elements of four or eight bytes.
pub open spec fn numbers_of(bytes: Seq<u8>, narrow: Element) -> Result<Seq<usize>, NpyError> {
    match file_header(bytes) {
        Err(e) => Err(e),
        Ok((shape, size, start)) => if shape.len() != 1 {
            Err(NpyError::WrongDimensions)
        } else if size != 4 && size != 8 {
            Err(NpyError::WrongElementSize)
        } else if !has_payload(bytes, start as int, shape[0] as int, size as int) {
            Err(NpyError::Truncated)
        } else {
            Ok(
                Seq::new(
                    shape[0] as nat,
                    |i: int| element(bytes, start as int, size as int, narrow, i),
                ),
            )
        },
    }
}

fn read_numbers(bytes: &[u8], narrow: Element) -> (r: Result<Vec<usize>, NpyError>)
    ensures
        match r {
            Ok(numbers) => numbers_of(bytes@, narrow) == Ok::<Seq<usize>, NpyError>(numbers@),
            Err(e) => numbers_of(bytes@, narrow) == Err::<Seq<usize>, NpyError>(e),
        },
{
    let (shape, size, start): (Vec<usize>, usize, usize) = match parse_npy_header(bytes) {
        Ok(header) => header,
        Err(e) => {
            return Err(e);
        },
    };
    if shape.len() != 1 {
        return Err(NpyError::WrongDimensions);
    }
    if size != 4 && size != 8 {
        return Err(NpyError::WrongElementSize);
    }
    if !payload_fits(bytes, start, shape[0], size) {
        return Err(NpyError::Truncated);
    }
    Ok(read_elements(bytes, start, size, narrow, shape[0]))
}

/// Reads a file of token types; those of four bytes have no sign.
pub fn read_token_ids_npy(bytes: &[u8]) -> (r: Result<Vec<usize>, NpyError>)
    ensures
        match r {
            Ok(ids) => numbers_of(bytes@, Element::Unsigned) == Ok::<Seq<usize>, NpyError>(ids@),
            Err(e) => numbers_of(bytes@, Element::Unsigned) == Err::<Seq<usize>, NpyError>(e),
        },
{
    read_numbers(bytes, Element::Unsigned)
}

/// Reads a file of document lengths; those of four bytes have a sign.
pub fn read_doclens_npy(bytes: &[u8]) -> (r: Result<Vec<usize>, NpyError>)
    ensures
        match r {
            Ok(lens) => numbers_of(bytes@, Element::Signed) == Ok::<Seq<usize>, NpyError>(lens@),
            Err(e) => numbers_of(bytes@, Element::Signed) == Err::<Seq<usize>, NpyError>(e),
        },
{
    read_numbers(bytes, Element::Signed)
}

/// What a file of `expected_len` centroid assignments holds.
pub open spec fn assignments_of(bytes: Seq<u8>, expected_len: int) -> Result<
    Seq<usize>,
    NpyError,
> {
    match file_header(bytes) {
        Err(e) => Err(e),
        Ok((shape, size, start)) => if shape.len() != 1 {
            Err(NpyError::WrongDimensions)
        } else if shape[0] != expected_len {
            Err(NpyError::WrongLength)
        } else if !has_payload(bytes, start as int, shape[0] as int, size as int) {
            Err(NpyError::Truncated)
        } else if size != 4 && size != 8 {
            Err(NpyError::WrongElementSize)
        } else {
            Ok(
                Seq::new(
                    shape[0] as nat,
                    |i: int| element(bytes, start as int, size as int, Element::Unsigned, i),
                ),
            )
        },
    }
}

proof fn lemma_header_size(bytes: Seq<u8>)
    ensures
        file_header(bytes) matches Ok((shape, size, start)) ==> size > 0,
{
}

/// Reads a file of `expected_len` centroid assignments.
pub fn read_assignments_npy(bytes: &[u8], expected_len: usize) -> (r: Result<Vec<usize>, NpyError>)
    ensures
        match r {
            Ok(ids) => assignments_of(bytes@, expected_len as int) == Ok::<Seq<usize>, NpyError>(
                ids@,
            ),
            Err(e) => assignments_of(bytes@, expected_len as int) == Err::<Seq<usize>, NpyError>(
                e,
            ),
        },
{
    proof {
        lemma_header_size(bytes@);
    }
    let (shape, size, start): (Vec<usize>, usize, usize) = match parse_npy_header(bytes) {
        Ok(header) => header,
        Err(e) => {
            return Err(e);
        },
    };
    if shape.len() != 1 {
        return Err(NpyError::WrongDimensions);
    }
    if shape[0] != expected_len {
        return Err(NpyError::WrongLength);
    }
    if !payload_fits(bytes, start, shape[0], size) {
        return Err(NpyError::Truncated);
    }
    if size != 4 && size != 8 {
        return Err(NpyError::WrongElementSize);
    }
    Ok(read_elements(bytes, start, size, Element::Unsigned, shape[0]))
}

// ---------------------------------------------------------------------------
// Reading back what was written
// ---------------------------------------------------------------------------

/// Of bytes that write a number, the least significant first, that number is read.
pub proof fn written_numbers_are_read_back(bytes: Seq<u8>, at: int, width: int, v: int)
    requires
        0 <= width,
        0 <= v < pow(256, width as nat),
        forall|j: int|
            0 <= j < width ==> #[trigger] bytes[at + j] == (v / pow(256, j as nat)) % 256,
    ensures
        little_endian(bytes, at, width) == v,
    decreases width,
{
    reveal(pow);
    if width > 0 {
        let w = v / 256;
        let top = pow(256, (width - 1) as nat);
        assert(pow(256, width as nat) == 256 * top);
        assert(0 <= w < top) by (nonlinear_arith)
            requires
                w == v / 256,
                0 <= v < 256 * top,
        ;
        assert forall|j: int| 0 <= j < width - 1 implies #[trigger] bytes[at + 1 + j] == (w / pow(
            256,
            j as nat,
        )) % 256 by {
            assert(bytes[at + (j + 1)] == (v / pow(256, (j + 1) as nat)) % 256);
            let p = pow(256, j as nat);
            vstd::arithmetic::power::lemma_pow_positive(256, j as nat);
            assert(pow(256, (j + 1) as nat) == 256 * p);
            vstd::arithmetic::div_mod::lemma_div_denominator(v, 256, p);
        }
        written_numbers_are_read_back(bytes, at + 1, width - 1, w);
        assert(bytes[at + 0] == (v / pow(256, 0)) % 256);
        assert(pow(256, 0) == 1);
        assert(v / 1 == v);
        assert(v == 256 * (v / 256) + v % 256);
    } else {
        assert(pow(256, 0) == 1);
    }
}

/// Elements are read back as they were written: those of eight bytes, as far as a `usize` can hold
/// them, and those of four without sign as the number that they write; those of four with sign too,
/// where it is not negative, and else as much below zero as they write, counted down from the end
/// of the `usize`.
pub proof fn written_elements_are_read_back(
    bytes: Seq<u8>,
    start: int,
    size: int,
    kind: Element,
    i: int,
    v: int,
)
    requires
        size == 4 || size == 8,
        0 <= v < pow(256, size as nat),
        forall|j: int|
            0 <= j < size ==> #[trigger] bytes[start + i * size + j] == (v / pow(256, j as nat))
                % 256,
    ensures
        size == 8 && v <= usize::MAX ==> element(bytes, start, size, kind, i) == v,
        size == 4 && kind == Element::Unsigned ==> element(bytes, start, size, kind, i) == v,
        size == 4 && kind == Element::Signed && v < 0x8000_0000 ==> element(
            bytes,
            start,
            size,
            kind,
            i,
        ) == v,
        size == 4 && kind == Element::Signed && v >= 0x8000_0000 ==> element(
            bytes,
            start,
            size,
            kind,
            i,
        ) == usize::MAX - (0xffff_ffff - v),
{
    written_numbers_are_read_back(bytes, start + i * size, size, v);
    assert(pow(256, 4) == 0x1_0000_0000 && pow(256, 8) == 0x1_0000_0000_0000_0000) by {
        reveal(pow);
        reveal_with_fuel(pow, 9);
    }
    if size == 4 {
        let x = v as u32;
        assert(x < 0x8000_0000u32 ==> ((x as i32) as usize) == x) by (bit_vector);
        assert(usize::BITS == 32 && x >= 0x8000_0000u32 ==> ((x as i32) as usize) == x)
            by (bit_vector);
        assert(usize::BITS == 64 && x >= 0x8000_0000u32 ==> ((x as i32) as usize)
            == 0xffff_ffff_0000_0000 + x) by (bit_vector);
    } else {
        let y = v as u64;
        if v <= usize::MAX {
            assert(y as usize == v);
        }
    }
}

/// A vector file, read: as many vectors and values as the shape says, each value by its two bytes,
/// the low one first.
pub proof fn vector_files_are_read(bytes: Seq<u8>, rows: usize, dim: usize, start: usize, i: int)
    requires
        file_header(bytes) == Ok::<(Seq<usize>, usize, usize), NpyError>(
            (seq![rows, dim], 2usize, start),
        ),
        start + 2 * (rows * dim) <= bytes.len(),
        0 <= i < rows * dim,
    ensures
        match vectors_of(bytes) {
            Ok((data, d)) => data.len() == rows * dim && d == dim && data[i] == bytes[start + 2 * i]
                + 256 * bytes[start + 2 * i + 1],
            Err(_) => false,
        },
{
    lemma_le_bounds(bytes, start + i * 2, 2);
}

/// A vector file is refused for another number of dimensions than two, another element size than
/// two bytes, or an end before its last value, in this order, and for nothing else than its header
/// beyond that.
pub proof fn vector_files_are_refused(bytes: Seq<u8>, shape: Seq<usize>, size: usize, start: usize)
    requires
        file_header(bytes) == Ok::<(Seq<usize>, usize, usize), NpyError>((shape, size, start)),
    ensures
        vectors_of(bytes) is Ok <==> shape.len() == 2 && size == 2 && start + 2 * (shape[0]
            * shape[1]) <= bytes.len(),
        vectors_of(bytes) matches Err(e) ==> e == if shape.len() != 2 {
            NpyError::WrongDimensions
        } else if size != 2 {
            NpyError::WrongElementSize
        } else {
            NpyError::Truncated
        },
{
}

/// A file of numbers, read: as many as the shape says, each the number that its bytes write, at
/// most as large as a `usize`, and with its sign where four bytes have one.
pub proof fn number_files_are_read(
    bytes: Seq<u8>,
    len: usize,
    size: usize,
    start: usize,
    narrow: Element,
    i: int,
    v: int,
)
    requires
        file_header(bytes) == Ok::<(Seq<usize>, usize, usize), NpyError>((seq![len], size, start)),
        size == 4 || size == 8,
        start + len * size <= bytes.len(),
        0 <= i < len,
        0 <= v < pow(256, size as nat),
        v <= usize::MAX,
        forall|j: int|
            0 <= j < size ==> #[trigger] bytes[start + i * size + j] == (v / pow(256, j as nat))
                % 256,
    ensures
        match numbers_of(bytes, narrow) {
            Ok(numbers) => numbers.len() == len && (size == 8 || narrow == Element::Unsigned || v
                < 0x8000_0000 ==> numbers[i] == v) && (size == 4 && narrow == Element::Signed && v
                >= 0x8000_0000 ==> numbers[i] == usize::MAX - (0xffff_ffff - v)),
            Err(_) => false,
        },
        match assignments_of(bytes, len as int) {
            Ok(numbers) => numbers.len() == len && numbers[i] == v,
            Err(_) => false,
        },
{
    written_elements_are_read_back(bytes, start as int, size as int, narrow, i, v);
    written_elements_are_read_back(bytes, start as int, size as int, Element::Unsigned, i, v);
}

/// A file of numbers is refused for another number of dimensions than one, elements of other than
/// four or eight bytes, or an end before its last number; one of assignments also for another
/// length than wanted.
pub proof fn number_files_are_refused(
    bytes: Seq<u8>,
    shape: Seq<usize>,
    size: usize,
    start: usize,
    narrow: Element,
    expected_len: int,
)
    requires
        file_header(bytes) == Ok::<(Seq<usize>, usize, usize), NpyError>((shape, size, start)),
    ensures
        numbers_of(bytes, narrow) is Ok <==> shape.len() == 1 && (size == 4 || size == 8) && start
            + shape[0] * size <= bytes.len(),
        numbers_of(bytes, narrow) matches Err(e) ==> e == if shape.len() != 1 {
            NpyError::WrongDimensions
        } else if size != 4 && size != 8 {
            NpyError::WrongElementSize
        } else {
            NpyError::Truncated
        },
        assignments_of(bytes, expected_len) is Ok <==> shape.len() == 1 && shape[0] == expected_len
            && (size == 4 || size == 8) && start + shape[0] * size <= bytes.len(),
        assignments_of(bytes, expected_len) matches Err(e) ==> e == if shape.len() != 1 {
            NpyError::WrongDimensions
        } else if shape[0] != expected_len {
            NpyError::WrongLength
        } else if start + shape[0] * size > bytes.len() {
            NpyError::Truncated
        } else {
            NpyError::WrongElementSize
        },
{
}

/// A file that is refused for its header is refused whatever it should hold.
pub proof fn files_with_bad_headers_are_refused(
    bytes: Seq<u8>,
    e: NpyError,
    narrow: Element,
    expected_len: int,
)
    requires
        file_header(bytes) == Err::<(Seq<usize>, usize, usize), NpyError>(e),
    ensures
        vectors_of(bytes) == Err::<(Seq<u16>, usize), NpyError>(e),
        numbers_of(bytes, narrow) == Err::<Seq<usize>, NpyError>(e),
        assignments_of(bytes, expected_len) == Err::<Seq<usize>, NpyError>(e),
{
}

/// A file starts with the byte 0x93 and `NUMPY`, its version, and the length of its header: two
/// bytes in version 1, four in others, the low one first. Its elements start behind the header, and
/// nothing but what the header says is taken from it.
pub proof fn file_headers_are_read(bytes: Seq<u8>)
    requires
        bytes.len() >= 12,
        bytes[0] == 0x93,
        bytes[1] == 0x4E,
        bytes[2] == 0x55,
        bytes[3] == 0x4D,
        bytes[4] == 0x50,
        bytes[5] == 0x59,
    ensures
        ({
            let start: int = if bytes[6] == 1 {
                10
            } else {
                12
            };
            let len: int = if bytes[6] == 1 {
                bytes[8] + 256 * bytes[9]
            } else {
                bytes[8] + 256 * bytes[9] + 65536 * bytes[10] + 16777216 * bytes[11]
            };
            if start + len > bytes.len() {
                file_header(bytes) == Err::<(Seq<usize>, usize, usize), NpyError>(
                    NpyError::Truncated,
                )
            } else {
                match header_of(bytes.subrange(start, start + len)) {
                    Ok((shape, size)) => file_header(bytes) == Ok::<
                        (Seq<usize>, usize, usize),
                        NpyError,
                    >((shape, size, (start + len) as usize)),
                    Err(e) => file_header(bytes) == Err::<(Seq<usize>, usize, usize), NpyError>(e),
                }
            }
        }),
{
    lemma_numpy();
    assert(bytes.subrange(1, 6) =~= "NUMPY".spec_bytes());
    lemma_le_bounds(bytes, 8, 2);
    lemma_le_bounds(bytes, 8, 4);
}

proof fn lemma_numpy()
    ensures
        "NUMPY".spec_bytes() == seq![0x4Eu8, 0x55u8, 0x4Du8, 0x50u8, 0x59u8],
{
    reveal_strlit("NUMPY");
    vstd::string::is_ascii_spec_bytes("NUMPY");
    assert("NUMPY".spec_bytes() =~= seq![0x4Eu8, 0x55u8, 0x4Du8, 0x50u8, 0x59u8]);
}

/// A file that is too short to start so is cut off, and one that starts otherwise is none.
pub proof fn other_files_are_refused(bytes: Seq<u8>)
    ensures
        bytes.len() < 6 ==> file_header(bytes) == Err::<(Seq<usize>, usize, usize), NpyError>(
            NpyError::Truncated,
        ),
        bytes.len() >= 6 && !(bytes[0] == 0x93 && bytes[1] == 0x4E && bytes[2] == 0x55 && bytes[3]
            == 0x4D && bytes[4] == 0x50 && bytes[5] == 0x59) ==> file_header(bytes) == Err::<
            (Seq<usize>, usize, usize),
            NpyError,
        >(NpyError::NotNumpy),
{
    lemma_numpy();
    if bytes.len() >= 6 && has_magic(bytes) {
        let s = bytes.subrange(1, 6);
        assert(s[0] == bytes[1] && s[1] == bytes[2] && s[2] == bytes[3] && s[3] == bytes[4] && s[4]
            == bytes[5]);
    }
}

/// A type code is a letter and the size of an element in bytes, 1, 2, 4 or 8: `i` or `u`, or `f`
/// but for size 1, or `b` for size 1 alone.
pub proof fn type_codes_name_sizes(code: Seq<u8>)
    ensures
        elem_size(code) == if code.len() != 2 {
            None
        } else {
            let whole = code[0] == 0x69 || code[0] == 0x75;
            if code[1] == 0x31 && (whole || code[0] == 0x62) {
                Some(1usize)
            } else if code[1] == 0x32 && (whole || code[0] == 0x66) {
                Some(2)
            } else if code[1] == 0x34 && (whole || code[0] == 0x66) {
                Some(4)
            } else if code[1] == 0x38 && (whole || code[0] == 0x66) {
                Some(8)
            } else {
                None
            }
        },
{
    reveal_strlit("i1");
    vstd::string::is_ascii_spec_bytes("i1");
    assert("i1".spec_bytes() =~= seq![0x69u8, 0x31u8]);
    reveal_strlit("u1");
    vstd::string::is_ascii_spec_bytes("u1");
    assert("u1".spec_bytes() =~= seq![0x75u8, 0x31u8]);
    reveal_strlit("b1");
    vstd::string::is_ascii_spec_bytes("b1");
    assert("b1".spec_bytes() =~= seq![0x62u8, 0x31u8]);
    reveal_strlit("i2");
    vstd::string::is_ascii_spec_bytes("i2");
    assert("i2".spec_bytes() =~= seq![0x69u8, 0x32u8]);
    reveal_strlit("u2");
    vstd::string::is_ascii_spec_bytes("u2");
    assert("u2".spec_bytes() =~= seq![0x75u8, 0x32u8]);
    reveal_strlit("f2");
    vstd::string::is_ascii_spec_bytes("f2");
    assert("f2".spec_bytes() =~= seq![0x66u8, 0x32u8]);
    reveal_strlit("i4");
    vstd::string::is_ascii_spec_bytes("i4");
    assert("i4".spec_bytes() =~= seq![0x69u8, 0x34u8]);
    reveal_strlit("u4");
    vstd::string::is_ascii_spec_bytes("u4");
    assert("u4".spec_bytes() =~= seq![0x75u8, 0x34u8]);
    reveal_strlit("f4");
    vstd::string::is_ascii_spec_bytes("f4");
    assert("f4".spec_bytes() =~= seq![0x66u8, 0x34u8]);
    reveal_strlit("i8");
    vstd::string::is_ascii_spec_bytes("i8");
    assert("i8".spec_bytes() =~= seq![0x69u8, 0x38u8]);
    reveal_strlit("u8");
    vstd::string::is_ascii_spec_bytes("u8");
    assert("u8".spec_bytes() =~= seq![0x75u8, 0x38u8]);
    reveal_strlit("f8");
    vstd::string::is_ascii_spec_bytes("f8");
    assert("f8".spec_bytes() =~= seq![0x66u8, 0x38u8]);
    if code.len() == 2 {
        assert(code =~= seq![code[0], code[1]]);
    }
}

/// The marks of byte order in front, `<`, `=` or `|`, are dropped, all of them and nothing else.
pub proof fn order_marks_are_dropped(descr: Seq<u8>)
    ensures
        ({
            let code = without_marks(descr);
            let n = descr.len() - code.len();
            &&& 0 <= n && code == descr.skip(n)
            &&& forall|i: int|
                0 <= i < n ==> #[trigger] descr[i] == 0x3C || descr[i] == 0x3D || descr[i] == 0x7C
            &&& code.len() > 0 ==> code[0] != 0x3C && code[0] != 0x3D && code[0] != 0x7C
        }),
    decreases descr.len(),
{
    if descr.len() > 0 && is_order_mark(descr[0]) {
        let rest = descr.skip(1);
        order_marks_are_dropped(rest);
        let code = without_marks(rest);
        let m = rest.len() - code.len();
        assert(code =~= descr.skip(m + 1));
        assert forall|i: int| 0 <= i < m + 1 implies #[trigger] descr[i] == 0x3C || descr[i] == 0x3D
            || descr[i] == 0x7C by {
            if i > 0 {
                assert(rest[i - 1] == descr[i]);
            }
        }
    } else {
        assert(descr.skip(0) =~= descr);
    }
}

/// A shape of one word is the number that it writes; a word, a comma and more is that number and
/// then the others; blanks before a word do not matter, and no words are no dimensions.
pub proof fn shapes_list_numbers(word: Seq<u8>, rest: Seq<u8>, v: usize)
    requires
        number(word) == Some(v),
        forall|i: int| 0 <= i < word.len() ==> 0x30 <= #[trigger] word[i] <= 0x39,
    ensures
        dims(Seq::<u8>::empty()) == Some(Seq::<usize>::empty()),
        dims(word) == Some(seq![v]),
        match dims(rest) {
            Some(others) => dims(word + seq![0x2Cu8] + rest) == Some(seq![v] + others),
            None => dims(word + seq![0x2Cu8] + rest) is None,
        },
        dims(seq![0x20u8] + rest) == dims(rest),
{
    let none = Seq::<u8>::empty();
    none.index_of_first_ensures(COMMA);
    trimming_keeps_the_visible(none);
    assert(piece_dims(none) == Some(Seq::<usize>::empty()));
    assert(word.len() > 0) by {
        if word.len() == 0 {
            crate::text::other_text_is_no_number(word, 0);
        }
    }
    assert(word.last() == word[word.len() - 1]);
    trimming_keeps_the_visible(word);
    word.index_of_first_ensures(COMMA);
    assert(!word.contains(COMMA)) by {
        if word.contains(COMMA) {
            let i = choose|i: int| 0 <= i < word.len() && word[i] == COMMA;
            assert(0x30 <= word[i]);
        }
    }
    let all = word + seq![0x2Cu8] + rest;
    let n = word.len() as int;
    lemma_first_comma(all, n);
    assert(all.take(n) =~= word);
    assert(all.skip(n + 1) =~= rest);
    let wide = seq![0x20u8] + rest;
    rest.index_of_first_ensures(COMMA);
    match rest.index_of_first(COMMA) {
        Some(c) => {
            assert(wide[c + 1] == COMMA);
            assert forall|j: int| 0 <= j < c + 1 implies #[trigger] wide[j] != COMMA by {
                if j > 0 {
                    assert(wide[j] == rest[j - 1]);
                }
            }
            lemma_first_comma(wide, c + 1);
            assert(wide.take(c + 1) =~= seq![0x20u8] + rest.take(c));
            assert(wide.skip(c + 2) =~= rest.skip(c + 1));
            trimming_drops_blanks(rest.take(c), 0x20);
        },
        None => {
            wide.index_of_first_ensures(COMMA);
            assert(!wide.contains(COMMA)) by {
                if wide.contains(COMMA) {
                    let i = choose|i: int| 0 <= i < wide.len() && wide[i] == COMMA;
                    assert(rest[i - 1] == COMMA);
                }
            }
            trimming_drops_blanks(rest, 0x20);
        },
    }
}

proof fn lemma_first_comma(list: Seq<u8>, n: int)
    requires
        0 <= n < list.len(),
        list[n] == COMMA,
        forall|j: int| 0 <= j < n ==> #[trigger] list[j] != COMMA,
    ensures
        list.index_of_first(COMMA) == Some(n),
{
    lemma_first_byte(list, COMMA, n);
}

proof fn lemma_first_byte(list: Seq<u8>, byte: u8, n: int)
    requires
        0 <= n < list.len(),
        list[n] == byte,
        forall|j: int| 0 <= j < n ==> #[trigger] list[j] != byte,
    ensures
        list.index_of_first(byte) == Some(n),
{
    list.index_of_first_ensures(byte);
    assert(list.contains(byte));
    let m = list.index_of_first(byte).unwrap();
    assert(list[m] == byte && list[n] == byte);
}

/// A header is read by its entries: behind the first `'descr': '` stands the type, up to the next
/// quote, and behind the first `'shape': (` the shape, up to the next bracket, wherever in the
/// header these are; nothing else counts, unless it says that the order is that of Fortran.
pub proof fn headers_are_read_by_entry(
    text: Seq<u8>,
    d: int,
    quote: int,
    s: int,
    close: int,
    shape: Seq<usize>,
    size: usize,
)
    requires
        forall|p: int|
            0 <= p && p + "'fortran_order': True".spec_bytes().len() <= text.len()
                ==> #[trigger] text.subrange(p, p + "'fortran_order': True".spec_bytes().len())
                != "'fortran_order': True".spec_bytes(),
        0 <= d,
        d + "'descr': '".spec_bytes().len() <= quote < text.len(),
        text.subrange(d, d + "'descr': '".spec_bytes().len()) == "'descr': '".spec_bytes(),
        forall|p: int|
            0 <= p < d ==> #[trigger] text.subrange(p, p + "'descr': '".spec_bytes().len())
                != "'descr': '".spec_bytes(),
        text[quote] == 0x27,
        forall|p: int|
            d + "'descr': '".spec_bytes().len() <= p < quote ==> #[trigger] text[p] != 0x27,
        0 <= s,
        s + "'shape': (".spec_bytes().len() <= close < text.len(),
        text.subrange(s, s + "'shape': (".spec_bytes().len()) == "'shape': (".spec_bytes(),
        forall|p: int|
            0 <= p < s ==> #[trigger] text.subrange(p, p + "'shape': (".spec_bytes().len())
                != "'shape': (".spec_bytes(),
        text[close] == 0x29,
        forall|p: int|
            s + "'shape': (".spec_bytes().len() <= p < close ==> #[trigger] text[p] != 0x29,
        text[d + "'descr': '".spec_bytes().len()] != 0x3E,
        elem_size(
            without_marks(text.subrange(d + "'descr': '".spec_bytes().len(), quote)),
        ) == Some(size),
        dims(text.subrange(s + "'shape': (".spec_bytes().len(), close)) == Some(shape),
    ensures
        header_of(text) == Ok::<(Seq<usize>, usize), NpyError>((shape, size)),
{
    let fortran = "'fortran_order': True".spec_bytes();
    let descr = "'descr': '".spec_bytes();
    let token = "'shape': (".spec_bytes();
    first_at_is_the_first(text, fortran, 0);
    first_at_is_the_first(text, descr, 0);
    first_at_is_the_first(text, token, 0);
    match first_at(text, descr, 0) {
        Some(p) => {
            if p > d {
                assert(text.subrange(d, d + descr.len()) != descr);
            } else if p < d {
                assert(text.subrange(p, p + descr.len()) != descr);
            }
        },
        None => {
            assert(text.subrange(d, d + descr.len()) != descr);
        },
    }
    match first_at(text, token, 0) {
        Some(p) => {
            if p > s {
                assert(text.subrange(s, s + token.len()) != token);
            } else if p < s {
                assert(text.subrange(p, p + token.len()) != token);
            }
        },
        None => {
            assert(text.subrange(s, s + token.len()) != token);
        },
    }
    match first_at(text, fortran, 0) {
        Some(p) => {
            assert(text.subrange(p, p + fortran.len()) != fortran);
        },
        None => {},
    }
    let from = d + descr.len();
    let rest = text.skip(from);
    assert forall|j: int| 0 <= j < quote - from implies #[trigger] rest[j] != QUOTE by {
        assert(text[from + j] != 0x27);
    }
    lemma_first_byte(rest, QUOTE, quote - from);
    assert(rest.take(quote - from) =~= text.subrange(from, quote));
    let at = s + token.len();
    let behind = text.skip(at);
    assert forall|j: int| 0 <= j < close - at implies #[trigger] behind[j] != CLOSE by {
        assert(text[at + j] != 0x29);
    }
    lemma_first_byte(behind, CLOSE, close - at);
    assert(behind.take(close - at) =~= text.subrange(at, close));
    let code = text.subrange(from, quote);
    if code.len() > 0 {
        assert(code[0] == text[from]);
    }
}

/// What a header is refused for: an order of Fortran before all else; then no type, a type of the
/// other byte order or of no known size, and no shape.
pub proof fn headers_are_refused(text: Seq<u8>, p: int)
    ensures
        0 <= p && p + "'fortran_order': True".spec_bytes().len() <= text.len() && text.subrange(
            p,
            p + "'fortran_order': True".spec_bytes().len(),
        ) == "'fortran_order': True".spec_bytes() ==> header_of(text) == Err::<
            (Seq<usize>, usize),
            NpyError,
        >(NpyError::FortranOrder),
        (forall|q: int|
            0 <= q && q + "'descr': '".spec_bytes().len() <= text.len() ==> #[trigger] text.subrange(
                q,
                q + "'descr': '".spec_bytes().len(),
            ) != "'descr': '".spec_bytes()) ==> (header_of(text) matches Err(e) && (e
            == NpyError::NoDescr || e == NpyError::FortranOrder)),
        (forall|q: int|
            0 <= q && q + "'shape': (".spec_bytes().len() <= text.len() ==> #[trigger] text.subrange(
                q,
                q + "'shape': (".spec_bytes().len(),
            ) != "'shape': (".spec_bytes()) ==> header_of(text) is Err,
        header_of(text) matches Err(e) ==> e == NpyError::FortranOrder || e == NpyError::NoDescr || e
            == NpyError::UnclosedDescr || e == NpyError::BigEndian || e == NpyError::UnknownDtype
            || e == NpyError::NoShape || e == NpyError::UnclosedShape || e == NpyError::BadShape,
        header_behind_descr(text, seq![0x3Eu8] + text) == Err::<(Seq<usize>, usize), NpyError>(
            NpyError::BigEndian,
        ),
{
    first_at_is_the_first(text, "'fortran_order': True".spec_bytes(), 0);
    first_at_is_the_first(text, "'descr': '".spec_bytes(), 0);
    first_at_is_the_first(text, "'shape': (".spec_bytes(), 0);
    assert((seq![0x3Eu8] + text)[0] == 0x3E);
}

/// A header whose element type has no quote behind it is refused for that.
pub proof fn unclosed_types_are_refused(text: Seq<u8>, d: int)
    requires
        forall|p: int|
            0 <= p && p + "'fortran_order': True".spec_bytes().len() <= text.len()
                ==> #[trigger] text.subrange(p, p + "'fortran_order': True".spec_bytes().len())
                != "'fortran_order': True".spec_bytes(),
        0 <= d,
        d + "'descr': '".spec_bytes().len() <= text.len(),
        text.subrange(d, d + "'descr': '".spec_bytes().len()) == "'descr': '".spec_bytes(),
        forall|p: int|
            0 <= p < d ==> #[trigger] text.subrange(p, p + "'descr': '".spec_bytes().len())
                != "'descr': '".spec_bytes(),
        forall|p: int|
            d + "'descr': '".spec_bytes().len() <= p < text.len() ==> #[trigger] text[p] != 0x27,
    ensures
        header_of(text) == Err::<(Seq<usize>, usize), NpyError>(NpyError::UnclosedDescr),
{
    let fortran = "'fortran_order': True".spec_bytes();
    let descr = "'descr': '".spec_bytes();
    first_at_is_the_first(text, fortran, 0);
    first_at_is_the_first(text, descr, 0);
    match first_at(text, descr, 0) {
        Some(p) => {
            if p > d {
                assert(text.subrange(d, d + descr.len()) != descr);
            } else if p < d {
                assert(text.subrange(p, p + descr.len()) != descr);
            }
        },
        None => {
            assert(text.subrange(d, d + descr.len()) != descr);
        },
    }
    match first_at(text, fortran, 0) {
        Some(p) => {
            assert(text.subrange(p, p + fortran.len()) != fortran);
        },
        None => {},
    }
    let from = d + descr.len();
    let rest = text.skip(from);
    rest.index_of_first_ensures(QUOTE);
    if rest.contains(QUOTE) {
        let j = choose|j: int| 0 <= j < rest.len() && rest[j] == QUOTE;
        assert(text[from + j] != 0x27);
    }
}

/// A header is refused for the first of these that holds: the elements are big-endian; their type is
/// not known; the shape is missing; it has no bracket behind it; a piece of it is no number.
pub proof fn headers_are_refused_in_turn(text: Seq<u8>, d: int, quote: int, s: int, close: int)
    requires
        forall|p: int|
            0 <= p && p + "'fortran_order': True".spec_bytes().len() <= text.len()
                ==> #[trigger] text.subrange(p, p + "'fortran_order': True".spec_bytes().len())
                != "'fortran_order': True".spec_bytes(),
        0 <= d,
        d + "'descr': '".spec_bytes().len() <= text.len(),
        text.subrange(d, d + "'descr': '".spec_bytes().len()) == "'descr': '".spec_bytes(),
        forall|p: int|
            0 <= p < d ==> #[trigger] text.subrange(p, p + "'descr': '".spec_bytes().len())
                != "'descr': '".spec_bytes(),
        d + "'descr': '".spec_bytes().len() <= quote < text.len(),
        text[quote] == 0x27,
        forall|p: int|
            d + "'descr': '".spec_bytes().len() <= p < quote ==> #[trigger] text[p] != 0x27,
    ensures
        ({
            let code = text.subrange(d + "'descr': '".spec_bytes().len(), quote);
            let token = "'shape': (".spec_bytes();
            let no_shape = forall|p: int|
                0 <= p && p + token.len() <= text.len() ==> #[trigger] text.subrange(
                    p,
                    p + token.len(),
                ) != token;
            let shape_at = 0 <= s && s + token.len() <= text.len() && text.subrange(
                s,
                s + token.len(),
            ) == token && forall|p: int|
                0 <= p < s ==> #[trigger] text.subrange(p, p + token.len()) != token;
            let no_bracket = forall|p: int|
                s + token.len() <= p < text.len() ==> #[trigger] text[p] != 0x29;
            let bracket_at = s + token.len() <= close < text.len() && text[close] == 0x29 && forall|
                p: int,
            |
                s + token.len() <= p < close ==> #[trigger] text[p] != 0x29;
            if code.len() > 0 && code[0] == 0x3E {
                header_of(text) == Err::<(Seq<usize>, usize), NpyError>(NpyError::BigEndian)
            } else if elem_size(without_marks(code)) is None {
                header_of(text) == Err::<(Seq<usize>, usize), NpyError>(NpyError::UnknownDtype)
            } else {
                &&& no_shape ==> header_of(text) == Err::<(Seq<usize>, usize), NpyError>(NpyError::NoShape)
                &&& shape_at && no_bracket ==> header_of(text) == Err::<(Seq<usize>, usize), NpyError>(
                    NpyError::UnclosedShape,
                )
                &&& shape_at && bracket_at && dims(text.subrange(s + token.len(), close)) is None
                    ==> header_of(text) == Err::<(Seq<usize>, usize), NpyError>(NpyError::BadShape)
            }
        }),
{
    let token = "'shape': (".spec_bytes();
    first_at_is_the_first(text, token, 0);
    let fortran = "'fortran_order': True".spec_bytes();
    let descr = "'descr': '".spec_bytes();
    first_at_is_the_first(text, fortran, 0);
    first_at_is_the_first(text, descr, 0);
    match first_at(text, descr, 0) {
        Some(p) => {
            if p > d {
                assert(text.subrange(d, d + descr.len()) != descr);
            } else if p < d {
                assert(text.subrange(p, p + descr.len()) != descr);
            }
        },
        None => {
            assert(text.subrange(d, d + descr.len()) != descr);
        },
    }
    match first_at(text, fortran, 0) {
        Some(p) => {
            assert(text.subrange(p, p + fortran.len()) != fortran);
        },
        None => {},
    }
    let from = d + descr.len();
    let rest = text.skip(from);
    assert forall|j: int| 0 <= j < quote - from implies #[trigger] rest[j] != QUOTE by {
        assert(text[from + j] != 0x27);
    }
    lemma_first_byte(rest, QUOTE, quote - from);
    assert(rest.take(quote - from) =~= text.subrange(from, quote));
    let code = text.subrange(from, quote);
    assert(header_of(text) == header_behind_descr(text, code));
    if 0 <= s && s + token.len() <= text.len() && text.subrange(s, s + token.len()) == token && (
    forall|p: int| 0 <= p < s ==> #[trigger] text.subrange(p, p + token.len()) != token) {
        match first_at(text, token, 0) {
            Some(p) => {
                if p > s {
                    assert(text.subrange(s, s + token.len()) != token);
                } else if p < s {
                    assert(text.subrange(p, p + token.len()) != token);
                }
            },
            None => {
                assert(text.subrange(s, s + token.len()) != token);
            },
        }
        let at = s + token.len();
        let behind = text.skip(at);
        behind.index_of_first_ensures(CLOSE);
        if forall|p: int| at <= p < text.len() ==> #[trigger] text[p] != 0x29 {
            if behind.contains(CLOSE) {
                let j = choose|j: int| 0 <= j < behind.len() && behind[j] == CLOSE;
                assert(text[at + j] != 0x29);
            }
        }
        if at <= close < text.len() && text[close] == 0x29 && (forall|p: int|
            at <= p < close ==> #[trigger] text[p] != 0x29) {
            assert forall|j: int| 0 <= j < close - at implies #[trigger] behind[j] != CLOSE by {
                assert(text[at + j] != 0x29);
            }
            lemma_first_byte(behind, CLOSE, close - at);
            assert(behind.take(close - at) =~= text.subrange(at, close));
        }
    } else if first_at(text, token, 0) is Some {
        let p = first_at(text, token, 0)->0;
        assert(text.subrange(p, p + token.len()) == token);
    }
}

/// A shape is read piece by piece, between commas: a blank piece holds no number, another one the
/// number that it writes without the blanks around it; one piece that writes none spoils the shape.
pub proof fn shapes_are_read_piece_by_piece(piece: Seq<u8>, rest: Seq<u8>)
    requires
        forall|i: int| 0 <= i < piece.len() ==> #[trigger] piece[i] != 0x2C,
    ensures
        trimmed(piece).len() == 0 ==> dims(piece) == Some(Seq::<usize>::empty()) && dims(
            piece + seq![0x2Cu8] + rest,
        ) == dims(rest),
        trimmed(piece).len() > 0 && number(trimmed(piece)) is None ==> dims(piece) is None && dims(
            piece + seq![0x2Cu8] + rest,
        ) is None,
        trimmed(piece).len() > 0 && number(trimmed(piece)) is Some ==> dims(piece) == Some(
            seq![number(trimmed(piece))->0],
        ) && match dims(rest) {
            Some(others) => dims(piece + seq![0x2Cu8] + rest) == Some(
                seq![number(trimmed(piece))->0] + others,
            ),
            None => dims(piece + seq![0x2Cu8] + rest) is None,
        },
{
    piece.index_of_first_ensures(COMMA);
    assert(!piece.contains(COMMA)) by {
        if piece.contains(COMMA) {
            let i = choose|i: int| 0 <= i < piece.len() && piece[i] == COMMA;
            assert(piece[i] != 0x2C);
        }
    }
    assert(dims(piece) == piece_dims(piece));
    let all = piece + seq![0x2Cu8] + rest;
    let n = piece.len() as int;
    assert forall|j: int| 0 <= j < n implies #[trigger] all[j] != COMMA by {
        assert(all[j] == piece[j]);
    }
    assert(all[n] == COMMA);
    lemma_first_comma(all, n);
    assert(all.take(n) =~= piece);
    assert(all.skip(n + 1) =~= rest);
    assert(dims(all) == both(piece_dims(piece), dims(rest)));
    if trimmed(piece).len() == 0 {
        match dims(rest) {
            Some(others) => {
                assert(Seq::<usize>::empty() + others =~= others);
            },
            None => {},
        }
    }
}

} // verus!
