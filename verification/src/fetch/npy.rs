//! Arrays of floating-point numbers in the formats of NumPy: a single array, and two in an
//! archive. Numbers come out as their bits.

use vstd::prelude::*;
use crate::scan;

verus! {

/// Why bytes are no array of single-precision numbers.
#[derive(Debug, Clone, Copy, PartialEq, Eq, Structural)]
pub enum NpyError {
    /// They do not start as an array does.
    Magic,
    /// The header is not text.
    Header,
    /// The numbers are of another type.
    Type,
}

/// The number that two bytes stand for, lowest first.
pub open spec fn pair(b: Seq<u8>, i: int) -> int {
    b[i] + 256 * b[i + 1]
}

/// The number that four bytes stand for, lowest first.
pub open spec fn quad(b: Seq<u8>, i: int) -> int {
    pair(b, i) + 65_536 * pair(b, i + 2)
}

/// How an array starts.
pub open spec fn magic() -> Seq<u8> {
    seq![0x93u8, 0x4e, 0x55, 0x4d, 0x50, 0x59]
}

/// Where the header starts: behind its length, which takes four bytes from the second version of
/// the format on and two before.
pub open spec fn header_start(b: Seq<u8>) -> int {
    if b[6] >= 2 {
        12
    } else {
        10
    }
}

/// The length of the header.
pub open spec fn header_len(b: Seq<u8>) -> int {
    if b[6] >= 2 {
        quad(b, 8)
    } else {
        pair(b, 8)
    }
}

/// The header.
pub open spec fn header(b: Seq<u8>) -> Seq<u8> {
    b.subrange(header_start(b), header_start(b) + header_len(b))
}

/// Whether the bytes hold everything that they announce: the magic at least, and with it the
/// whole header.
pub open spec fn complete(b: Seq<u8>) -> bool {
    &&& b.len() >= 6
    &&& b.take(6) == magic() ==> {
        &&& b.len() > 6
        &&& b.len() >= header_start(b)
        &&& b.len() >= header_start(b) + header_len(b)
    }
}

/// The bits of the numbers: four bytes each, lowest first; what is left over is passed over.
pub open spec fn bits(data: Seq<u8>) -> Seq<u32> {
    Seq::new((data.len() / 4) as nat, |k: int| quad(data, 4 * k) as u32)
}

/// The bits of the numbers of an array.
pub open spec fn array(b: Seq<u8>) -> Result<Seq<u32>, NpyError> {
    if b.take(6) != magic() {
        Err(NpyError::Magic)
    } else if !vstd::utf8::valid_utf8(header(b)) {
        Err(NpyError::Header)
    } else if !scan::holds(vstd::utf8::decode_utf8(header(b)), "'<f4'"@) {
        Err(NpyError::Type)
    } else {
        Ok(bits(b.skip(header_start(b) + header_len(b))))
    }
}

/// The text of bytes in UTF-8. Calls `std::str::from_utf8`, of which this claims what its
/// documentation says: it gives the text where the bytes are UTF-8, and an error where they are
/// not.
#[verifier::external_body]
fn decoded<'a>(bytes: &'a [u8]) -> (r: Option<&'a str>)
    ensures
        r is Some <==> vstd::utf8::valid_utf8(bytes@),
        r is Some ==> r->0@ == vstd::utf8::decode_utf8(bytes@),
{
    std::str::from_utf8(bytes).ok()
}

/// The number that two bytes stand for.
fn read_pair(b: &[u8], i: usize) -> (n: usize)
    requires
        i + 2 <= b@.len(),
    ensures
        n == pair(b@, i as int),
{
    b[i] as usize + 256 * b[i + 1] as usize
}

/// The number that four bytes stand for.
fn read_quad(b: &[u8], i: usize) -> (n: u32)
    requires
        i + 4 <= b@.len(),
    ensures
        n == quad(b@, i as int),
{
    let low: u32 = b[i] as u32 + 256 * b[i + 1] as u32;
    let high: u32 = b[i + 2] as u32 + 256 * b[i + 3] as u32;
    low + 65_536 * high
}

/// Whether the bytes start as an array does.
fn has_magic(b: &[u8]) -> (r: bool)
    requires
        b@.len() >= 6,
    ensures
        r == (b@.take(6) == magic()),
{
    let r: bool = b[0] == 0x93 && b[1] == 0x4e && b[2] == 0x55 && b[3] == 0x4d && b[4] == 0x50
        && b[5] == 0x59;
    proof {
        let m = b@.take(6);
        if r {
            assert(m =~= magic());
        } else if m == magic() {
            assert(m[0] == b@[0] && m[1] == b@[1] && m[2] == b@[2]);
            assert(m[3] == b@[3] && m[4] == b@[4] && m[5] == b@[5]);
        }
    }
    r
}

/// Where the header starts.
fn start_of_header(b: &[u8]) -> (n: usize)
    requires
        b@.len() > 6,
    ensures
        n == header_start(b@),
{
    if b[6] >= 2 {
        12
    } else {
        10
    }
}

/// The length of the header.
fn length_of_header(b: &[u8]) -> (n: usize)
    requires
        b@.len() > 6,
        b@.len() >= header_start(b@),
    ensures
        n == header_len(b@),
{
    if b[6] >= 2 {
        read_quad(b, 8) as usize
    } else {
        read_pair(b, 8)
    }
}

/// Whether bytes hold everything that they announce.
pub fn is_complete(b: &[u8]) -> (r: bool)
    ensures
        r == complete(b@),
{
    if b.len() < 6 {
        return false;
    }
    if !has_magic(b) {
        return true;
    }
    if b.len() == 6 {
        return false;
    }
    let start: usize = start_of_header(b);
    b.len() >= start && b.len() - start >= length_of_header(b)
}

/// Reads a one-dimensional array of little-endian single-precision numbers.
pub fn read_npy_f32(bytes: &[u8]) -> (r: Result<Vec<u32>, NpyError>)
    requires
        complete(bytes@),
    ensures
        match r {
            Ok(v) => array(bytes@) == Ok::<Seq<u32>, NpyError>(v@),
            Err(e) => array(bytes@) == Err::<Seq<u32>, NpyError>(e),
        },
{
    if !has_magic(bytes) {
        return Err(NpyError::Magic);
    }
    let start: usize = start_of_header(bytes);
    let len: usize = length_of_header(bytes);
    assert(start + len <= bytes.len());
    let head: Vec<u8> = crate::buffers::part(bytes, start, start + len);
    assert(head@ =~= header(bytes@));
    let text: &str = match decoded(head.as_slice()) {
        Some(t) => t,
        None => {
            return Err(NpyError::Header);
        },
    };
    if !scan::contains(text, "'<f4'") {
        return Err(NpyError::Type);
    }
    let data: Vec<u8> = crate::buffers::part(bytes, start + len, bytes.len());
    assert(data@ =~= bytes@.skip(start + len));
    let n: usize = data.len() / 4;
    let mut v: Vec<u32> = Vec::new();
    let mut k: usize = 0;
    while k < n
        invariant
            n == data.len() / 4,
            k <= n,
            v.len() == k,
            forall|j: int| 0 <= j < k ==> #[trigger] v@[j] == bits(data@)[j],
        decreases n - k,
    {
        let q: u32 = read_quad(data.as_slice(), 4 * k);
        assert(q == quad(data@, 4 * k as int));
        v.push(q);
        k = k + 1;
    }
    assert(v@ =~= bits(data@));
    Ok(v)
}

/// Why an archive does not give a member.
#[derive(Debug, Clone, Copy, PartialEq, Eq, Structural)]
pub enum ZipIssue {
    /// It is no archive.
    Archive,
    /// It has no such member, or none that can be opened.
    Missing,
    /// The member cannot be read.
    Unreadable,
}

/// What reading the member `name` of the zip archive `bytes` gives.
pub uninterp spec fn unzipped(bytes: Seq<u8>, name: Seq<char>) -> Result<Seq<u8>, ZipIssue>;

/// The contents of a member of a zip archive in memory. Opens the archive with
/// `zip::ZipArchive::new`, finds the member with `ZipArchive::by_name` and reads it to its end.
/// The claim is that the outcome is a function of the bytes and the name.
#[verifier::external_body]
fn zip_member(bytes: &[u8], name: &str) -> (r: Result<Vec<u8>, ZipIssue>)
    ensures
        unzipped(bytes@, name@) == (match r {
            Ok(v) => Ok::<Seq<u8>, ZipIssue>(v@),
            Err(e) => Err::<Seq<u8>, ZipIssue>(e),
        }),
{
    let mut archive = match zip::ZipArchive::new(std::io::Cursor::new(bytes)) {
        Ok(a) => a,
        Err(_) => return Err(ZipIssue::Archive),
    };
    let mut file = match archive.by_name(name) {
        Ok(f) => f,
        Err(_) => return Err(ZipIssue::Missing),
    };
    let mut data = Vec::new();
    let read = std::io::Read::read_to_end(&mut file, &mut data);
    read.map(|_| data).map_err(|_| ZipIssue::Unreadable)
}

/// Why an archive of two arrays cannot be read.
#[derive(Debug, Clone, Copy, PartialEq, Eq, Structural)]
pub enum NpzError {
    /// The member cannot be had.
    Member(ZipIssue),
    /// The member ends before it should.
    Truncated,
    /// The member is no such array.
    Array(NpyError),
}

/// The array in a member.
pub open spec fn member_array(m: Result<Seq<u8>, ZipIssue>) -> Result<Seq<u32>, NpzError> {
    match m {
        Err(e) => Err(NpzError::Member(e)),
        Ok(b) => if !complete(b) {
            Err(NpzError::Truncated)
        } else {
            match array(b) {
                Ok(v) => Ok(v),
                Err(e) => Err(NpzError::Array(e)),
            }
        },
    }
}

/// The result of reading a member, as a statement about it sees it.
pub open spec fn contents(m: Result<Vec<u8>, ZipIssue>) -> Result<Seq<u8>, ZipIssue> {
    match m {
        Ok(v) => Ok(v@),
        Err(e) => Err(e),
    }
}

/// The array in a member.
pub fn array_of(m: Result<Vec<u8>, ZipIssue>) -> (r: Result<Vec<u32>, NpzError>)
    ensures
        member_array(contents(m)) == (match r {
            Ok(v) => Ok::<Seq<u32>, NpzError>(v@),
            Err(e) => Err::<Seq<u32>, NpzError>(e),
        }),
{
    match m {
        Err(e) => Err(NpzError::Member(e)),
        Ok(b) => {
            if !is_complete(b.as_slice()) {
                return Err(NpzError::Truncated);
            }
            match read_npy_f32(b.as_slice()) {
                Ok(v) => Ok(v),
                Err(e) => Err(NpzError::Array(e)),
            }
        },
    }
}

/// Mean and deviation out of the members that hold them; what is wrong with the mean comes first.
pub open spec fn mean_and_std(
    mean: Result<Seq<u8>, ZipIssue>,
    std: Result<Seq<u8>, ZipIssue>,
) -> Result<(Seq<u32>, Seq<u32>), NpzError> {
    match member_array(mean) {
        Err(e) => Err(e),
        Ok(a) => match member_array(std) {
            Err(e) => Err(e),
            Ok(b) => Ok((a, b)),
        },
    }
}

/// The views of a result of two arrays.
pub open spec fn both(r: Result<(Vec<u32>, Vec<u32>), NpzError>) -> Result<
    (Seq<u32>, Seq<u32>),
    NpzError,
> {
    match r {
        Ok(p) => Ok((p.0@, p.1@)),
        Err(e) => Err(e),
    }
}

/// Mean and deviation out of the members that hold them.
pub fn stats_of(mean: Result<Vec<u8>, ZipIssue>, std: Result<Vec<u8>, ZipIssue>) -> (r: Result<
    (Vec<u32>, Vec<u32>),
    NpzError,
>)
    ensures
        both(r) == mean_and_std(contents(mean), contents(std)),
{
    match array_of(mean) {
        Err(e) => Err(e),
        Ok(a) => match array_of(std) {
            Err(e) => Err(e),
            Ok(b) => Ok((a, b)),
        },
    }
}

/// Reads mean and deviation out of an archive.
pub fn read_npz_mean_std(bytes: &[u8]) -> (r: Result<(Vec<u32>, Vec<u32>), NpzError>)
    ensures
        both(r) == mean_and_std(unzipped(bytes@, "mean.npy"@), unzipped(bytes@, "std.npy"@)),
{
    stats_of(zip_member(bytes, "mean.npy"), zip_member(bytes, "std.npy"))
}

/// The bytes of an array of the first version of the format with the given header.
pub open spec fn written(head: Seq<u8>, data: Seq<u8>) -> Seq<u8> {
    magic() + seq![1u8, 0u8, (head.len() % 256) as u8, (head.len() / 256) as u8] + head + data
}

/// What is read of an array is what was written: the numbers of the data behind a header that
/// says their type.
pub proof fn law_reading_gives_back_the_numbers(head: Seq<u8>, data: Seq<u8>)
    requires
        head.len() < 65_536,
        vstd::utf8::valid_utf8(head),
        scan::holds(vstd::utf8::decode_utf8(head), "'<f4'"@),
    ensures
        complete(written(head, data)),
        array(written(head, data)) == Ok::<Seq<u32>, NpyError>(bits(data)),
{
    let b = written(head, data);
    assert(b.take(6) =~= magic());
    assert(b[6] == 1);
    assert(pair(b, 8) == head.len());
    assert(header(b) =~= head);
    assert(b.skip(10 + head.len() as int) =~= data);
}

} // verus!
