//! Reader of `.npz` archives: ZIP files that hold one `.npy` file per array.

use vstd::prelude::*;

use crate::audio2face::npy::{all_signed, array_of, header_end, law_reads_go_forward, law_reads_stay,
    law_settled_reads_are_final, law_short_streams_run_out, next_reads, preamble_end, read_f32,
    read_i32, reads_of, ByteStream, NpyError, NpyF32, NpyFault, NpyI32};

verus! {

/// `zip::result::ZipError`, carried through unread.
#[verifier::external_type_specification]
#[verifier::external_body]
pub struct ExZipError(zip::result::ZipError);

/// `std::io::Cursor`, the reader under an archive held in memory.
#[verifier::external_type_specification]
#[verifier::external_body]
#[verifier::reject_recursive_types(T)]
pub struct ExCursor<T>(std::io::Cursor<T>);

/// `zip::ZipArchive`, an archive whose directory has been read.
#[verifier::external_type_specification]
#[verifier::external_body]
#[verifier::reject_recursive_types(R)]
pub struct ExZipArchive<R>(zip::ZipArchive<R>);

/// The bytes of the ZIP file that `archive` was made from.
pub uninterp spec fn zip_bytes(archive: zip::ZipArchive<std::io::Cursor<Vec<u8>>>) -> Seq<u8>;

/// The entry names in the directory of the ZIP file `bytes`, in its order;
/// None where `bytes` hold no readable directory.
pub uninterp spec fn zip_directory(bytes: Seq<u8>) -> Option<Seq<Seq<char>>>;

/// Whether the entry `name` of the ZIP file `bytes` opens.
pub uninterp spec fn zip_opens(bytes: Seq<u8>, name: Seq<char>) -> bool;

/// What comes of reading the entry `name` of the ZIP file `bytes` from its
/// beginning by exact reads that go up to each of `ends` in turn. None where one
/// of the reads fails.
pub uninterp spec fn zip_read(bytes: Seq<u8>, name: Seq<char>, ends: Seq<nat>) -> Option<Seq<u8>>;

/// Whether the ZIP file `bytes` has an entry `name`.
pub open spec fn names_entry(bytes: Seq<u8>, name: Seq<char>) -> bool {
    zip_directory(bytes) matches Some(names) && names.contains(name)
}

/// The texts that `strings` hold.
pub open spec fn texts(strings: Seq<String>) -> Seq<Seq<char>> {
    strings.map_values(|s: String| s@)
}

/// The places `ends`, but none of them behind `n`.
pub open spec fn capped(ends: Seq<nat>, n: nat) -> Seq<nat> {
    ends.map_values(|e: nat| if e < n { e } else { n })
}

/// The places as mathematical numbers.
pub open spec fn places(ends: Seq<usize>) -> Seq<nat> {
    ends.map_values(|e: usize| e as nat)
}

/// Whether reading the entry `name` of the ZIP file `bytes` as an array of the
/// element type `dtype` yields `stream`: the bytes of the reads that succeed,
/// and the error of the one that does not. A read that goes further than memory
/// can is not made.
pub open spec fn yields(
    bytes: Seq<u8>,
    name: Seq<char>,
    dtype: Seq<char>,
    stream: ByteStream,
) -> bool {
    let front = stream.bytes@;
    let reads = reads_of(front, name, dtype);
    &&& zip_opens(bytes, name)
    &&& front.len() > 0 ==> zip_read(bytes, name, capped(reads, front.len())) == Some(front)
    &&& match stream.failure {
        None => reads[3] <= front.len() || reads[3] > isize::MAX,
        Some(_) => front.len() < reads[3] && zip_read(bytes, name, reads) is None,
    }
}

/// Why an entry cannot be read.
enum EntryError {
    Missing,
    Closed(zip::result::ZipError),
    Broken(std::io::Error),
}

/// `zip::ZipArchive::new` on a `std::io::Cursor`: an archive over `bytes`,
/// where they hold a readable directory.
#[verifier::external_body]
fn open_archive(bytes: Vec<u8>) -> (r: Result<
    zip::ZipArchive<std::io::Cursor<Vec<u8>>>,
    zip::result::ZipError,
>)
    ensures
        r is Ok <==> zip_directory(bytes@) is Some,
        r matches Ok(a) ==> zip_bytes(a) == bytes@,
{
    zip::ZipArchive::new(std::io::Cursor::new(bytes))
}

/// `zip::ZipArchive::file_names`: the names in the directory, in its order.
#[verifier::external_body]
fn archive_names(archive: &zip::ZipArchive<std::io::Cursor<Vec<u8>>>) -> (r: Vec<String>)
    ensures
        zip_directory(zip_bytes(*archive)) == Some(texts(r@)),
{
    archive.file_names().map(|s| s.to_string()).collect()
}

/// `zip::ZipArchive::index_for_name`: there is an index exactly for the names
/// in the directory.
#[verifier::external_body]
fn archive_has(archive: &zip::ZipArchive<std::io::Cursor<Vec<u8>>>, name: &str) -> (r: bool)
    ensures
        r == names_entry(zip_bytes(*archive), name@),
{
    archive.index_for_name(name).is_some()
}

/// `zip::ZipArchive::by_name`, then `read_exact` on the entry up to each of
/// `ends` in turn. Opening fails with `ZipError::FileNotFound` exactly for a
/// name that is not in the directory. The reads start at the entry's beginning
/// and come one after the other, so leaving out the last of them leaves the
/// others as they are.
#[verifier::external_body]
fn read_entry(
    archive: &mut zip::ZipArchive<std::io::Cursor<Vec<u8>>>,
    name: &str,
    ends: [usize; 4],
) -> (r: Result<Vec<u8>, EntryError>)
    requires
        ends@[0] <= ends@[1] <= ends@[2] <= ends@[3] <= isize::MAX,
    ensures
        zip_bytes(*final(archive)) == zip_bytes(*old(archive)),
        match r {
            Err(EntryError::Missing) => !names_entry(zip_bytes(*old(archive)), name@),
            Err(EntryError::Closed(_)) => names_entry(zip_bytes(*old(archive)), name@)
                && !zip_opens(zip_bytes(*old(archive)), name@),
            Err(EntryError::Broken(_)) => names_entry(zip_bytes(*old(archive)), name@) && zip_opens(
                zip_bytes(*old(archive)),
                name@,
            ) && zip_read(zip_bytes(*old(archive)), name@, places(ends@)) is None,
            Ok(b) => names_entry(zip_bytes(*old(archive)), name@) && zip_opens(
                zip_bytes(*old(archive)),
                name@,
            ) && b@.len() == ends@[3] && forall|i: int|
                0 <= i < 4 ==> zip_read(
                    zip_bytes(*old(archive)),
                    name@,
                    capped(places(ends@), #[trigger] ends@[i] as nat),
                ) == Some(b@.take(ends@[i] as int)),
        },
{
    let mut bytes = vec![0; ends[3]];
    let mut entry = archive.by_name(name).map_err(|e| match e {
        zip::result::ZipError::FileNotFound => EntryError::Missing,
        other => EntryError::Closed(other),
    })?;
    std::io::Read::read_exact(&mut entry, &mut bytes[..ends[0]]).map_err(EntryError::Broken)?;
    std::io::Read::read_exact(&mut entry, &mut bytes[ends[0]..ends[1]]).map_err(EntryError::Broken)?;
    std::io::Read::read_exact(&mut entry, &mut bytes[ends[1]..ends[2]]).map_err(EntryError::Broken)?;
    std::io::Read::read_exact(&mut entry, &mut bytes[ends[2]..]).map_err(EntryError::Broken)?;
    Ok(bytes)
}

/// Errors of the archive reader. The last text names the archive, or the entry
/// for an [`NpzError::Npy`].
#[derive(Debug)]
pub enum NpzError {
    /// The archive file cannot be read.
    Io(std::io::Error, String),
    /// The archive, or one of its entries, cannot be opened.
    Zip(zip::result::ZipError, String),
    /// An entry holds no readable array.
    Npy(NpyError, String),
    /// The archive has no entry of that name.
    EntryMissing(String, String),
}

/// Whether `held` is what the entry `name` of the ZIP file `bytes` holds as an
/// array of the element type `dtype`.
pub open spec fn entry_holds(
    bytes: Seq<u8>,
    name: Seq<char>,
    dtype: Seq<char>,
    held: Result<(Seq<u32>, Seq<usize>), NpyFault>,
) -> bool {
    names_entry(bytes, name) && exists|stream: ByteStream|
        yields(bytes, name, dtype, stream) && #[trigger] array_of(stream, name, dtype) == held
}

/// Whether `data` and `shape` are what the entry `name` of the ZIP file `bytes`
/// holds as an array of 32-bit integers.
pub open spec fn entry_holds_integers(
    bytes: Seq<u8>,
    name: Seq<char>,
    data: Seq<i32>,
    shape: Seq<usize>,
) -> bool {
    exists|held: Result<(Seq<u32>, Seq<usize>), NpyFault>| #[trigger]
        entry_holds(bytes, name, "<i4"@, held) && (held matches Ok((words, s)) && data
            == all_signed(words) && shape == s)
}

/// Whether `e` is the error that the entry `name` does not open with: the one
/// for a missing entry where there is none of that name.
pub open spec fn entry_fails(
    bytes: Seq<u8>,
    source: Seq<char>,
    name: Seq<char>,
    e: NpzError,
) -> bool {
    match e {
        NpzError::EntryMissing(n, s) => !names_entry(bytes, name) && n@ == name && s@ == source,
        NpzError::Zip(_, s) => names_entry(bytes, name) && !zip_opens(bytes, name) && s@ == source,
        _ => false,
    }
}

/// Whether `front` is what some of the first reads of an array of the element
/// type `dtype` give of the entry `name`.
spec fn is_front(bytes: Seq<u8>, name: Seq<char>, dtype: Seq<char>, front: Seq<u8>) -> bool {
    let reads = reads_of(front, name, dtype);
    front.len() > 0 ==> {
        &&& names_entry(bytes, name)
        &&& zip_opens(bytes, name)
        &&& reads.contains(front.len())
        &&& zip_read(bytes, name, capped(reads, front.len())) == Some(front)
    }
}

/// How many reads of an array are left at most, after `front` came.
spec fn reads_left(front: Seq<u8>, name: Seq<char>, dtype: Seq<char>) -> nat {
    let reads = reads_of(front, name, dtype);
    if front.len() < reads[0] {
        4
    } else if front.len() < reads[1] {
        3
    } else if front.len() < reads[2] {
        2
    } else if front.len() < reads[3] {
        1
    } else {
        0
    }
}

proof fn lemma_front_grows(
    bytes: Seq<u8>,
    name: Seq<char>,
    dtype: Seq<char>,
    front: Seq<u8>,
    ends: Seq<usize>,
    more: Seq<u8>,
)
    requires
        is_front(bytes, name, dtype, front),
        ends.len() == 4,
        places(ends) == reads_of(front, name, dtype),
        front.len() < ends[3],
        more.len() == ends[3],
        names_entry(bytes, name),
        zip_opens(bytes, name),
        forall|i: int|
            0 <= i < 4 ==> zip_read(
                bytes,
                name,
                capped(places(ends), #[trigger] ends[i] as nat),
            ) == Some(more.take(ends[i] as int)),
    ensures
        is_front(bytes, name, dtype, more),
        reads_left(more, name, dtype) < reads_left(front, name, dtype),
{
    let reads = reads_of(front, name, dtype);
    let next = reads_of(more, name, dtype);
    if front.len() > 0 {
        let i = choose|i: int| 0 <= i < reads.len() && reads[i] == front.len();
        assert(places(ends)[i] == ends[i]);
        assert(more.take(ends[i] as int) == front);
    } else {
        assert(more.take(0) =~= front);
    }
    assert(front.is_prefix_of(more));
    assert(places(ends)[3] == ends[3]);
    assert(reads[3] == ends[3]);
    law_reads_stay(front, more, name, dtype);
    law_reads_go_forward(front, name, dtype);
    law_reads_go_forward(more, name, dtype);
    assert(capped(next, more.len()) =~= capped(reads, reads[3]));
    assert(more.take(ends[3] as int) =~= more);
    assert(next[0] == 10 && next[1] == preamble_end(more) && next[2] == header_end(more));
    assert(reads[0] == 10 && reads[1] == preamble_end(front) && reads[2] == header_end(front));
    assert(next.contains(more.len()));
}

/// An open `.npz` archive.
pub struct NpzArchive {
    archive: zip::ZipArchive<std::io::Cursor<Vec<u8>>>,
    source: String,
}

impl NpzArchive {
    /// The bytes of the archive file.
    pub closed spec fn bytes(&self) -> Seq<u8> {
        zip_bytes(self.archive)
    }

    /// What the archive is called in errors.
    pub closed spec fn source(&self) -> Seq<char> {
        self.source@
    }

    /// Opens an archive held in memory.
    pub fn from_reader(bytes: Vec<u8>, source_name: &str) -> (r: Result<Self, NpzError>)
        ensures
            r is Ok <==> zip_directory(bytes@) is Some,
            match r {
                Ok(a) => a.bytes() == bytes@ && a.source() == source_name@,
                Err(NpzError::Zip(_, s)) => s@ == source_name@,
                Err(_) => false,
            },
    {
        match open_archive(bytes) {
            Ok(archive) => Ok(NpzArchive { archive, source: source_name.to_owned() }),
            Err(e) => Err(NpzError::Zip(e, source_name.to_owned())),
        }
    }

    /// Whether the archive has an entry by the exact name.
    pub fn has_entry(&self, name: &str) -> (r: bool)
        ensures
            r == names_entry(self.bytes(), name@),
    {
        archive_has(&self.archive, name)
    }

    /// Every entry name, in the order of the archive's directory.
    pub fn entry_names(&self) -> (r: Vec<String>)
        ensures
            zip_directory(self.bytes()) == Some(texts(r@)),
    {
        archive_names(&self.archive)
    }

    /// Reads as much of an entry as an array of the element type `dtype` takes.
    fn entry(&mut self, name: &str, dtype: &str) -> (r: Result<ByteStream, NpzError>)
        ensures
            final(self).bytes() == old(self).bytes(),
            final(self).source() == old(self).source(),
            match r {
                Ok(stream) => names_entry(old(self).bytes(), name@) && yields(
                    old(self).bytes(),
                    name@,
                    dtype@,
                    stream,
                ),
                Err(e) => entry_fails(old(self).bytes(), old(self).source(), name@, e),
            },
    {
        let mut front: Vec<u8> = Vec::new();
        loop
            invariant
                self.bytes() == old(self).bytes(),
                self.source() == old(self).source(),
                is_front(self.bytes(), name@, dtype@, front@),
            decreases reads_left(front@, name@, dtype@),
        {
            let ends: [usize; 4] = match next_reads(front.as_slice(), name, dtype) {
                Some(ends) => ends,
                None => {
                    return Ok(ByteStream { bytes: front, failure: None });
                },
            };
            proof {
                law_reads_go_forward(front@, name@, dtype@);
                assert(places(ends@) =~= reads_of(front@, name@, dtype@));
                assert(places(ends@)[0] == ends@[0]);
                assert(places(ends@)[1] == ends@[1]);
                assert(places(ends@)[2] == ends@[2]);
                assert(places(ends@)[3] == ends@[3]);
            }
            if ends[3] <= front.len() {
                return Ok(ByteStream { bytes: front, failure: None });
            }
            match read_entry(&mut self.archive, name, ends) {
                Ok(bytes) => {
                    proof {
                        lemma_front_grows(self.bytes(), name@, dtype@, front@, ends@, bytes@);
                    }
                    front = bytes;
                },
                Err(EntryError::Broken(e)) => {
                    return Ok(ByteStream { bytes: front, failure: Some(e) });
                },
                Err(EntryError::Missing) => {
                    return Err(NpzError::EntryMissing(name.to_owned(), self.source.clone()));
                },
                Err(EntryError::Closed(e)) => {
                    return Err(NpzError::Zip(e, self.source.clone()));
                },
            }
        }
    }

    /// Reads an entry as binary32 elements. The name includes the suffix
    /// `.npy`.
    pub fn read_f32(&mut self, name: &str) -> (r: Result<NpyF32, NpzError>)
        ensures
            final(self).bytes() == old(self).bytes(),
            final(self).source() == old(self).source(),
            match r {
                Ok(a) => entry_holds(
                    old(self).bytes(),
                    name@,
                    "<f4"@,
                    Ok((a.data@, a.shape@)),
                ),
                Err(NpzError::Npy(e, n)) => n@ == name@ && entry_holds(
                    old(self).bytes(),
                    name@,
                    "<f4"@,
                    Err(e@),
                ),
                Err(e) => entry_fails(old(self).bytes(), old(self).source(), name@, e),
            },
    {
        match self.entry(name, "<f4") {
            Ok(stream) => match read_f32(stream, name) {
                Ok(a) => Ok(a),
                Err(e) => Err(NpzError::Npy(e, name.to_owned())),
            },
            Err(e) => Err(e),
        }
    }

    /// Reads an entry as 32-bit integers. The name includes the suffix `.npy`.
    pub fn read_i32(&mut self, name: &str) -> (r: Result<NpyI32, NpzError>)
        ensures
            final(self).bytes() == old(self).bytes(),
            final(self).source() == old(self).source(),
            match r {
                Ok(a) => entry_holds_integers(old(self).bytes(), name@, a.data@, a.shape@),
                Err(NpzError::Npy(e, n)) => n@ == name@ && entry_holds(
                    old(self).bytes(),
                    name@,
                    "<i4"@,
                    Err(e@),
                ),
                Err(e) => entry_fails(old(self).bytes(), old(self).source(), name@, e),
            },
    {
        match self.entry(name, "<i4") {
            Ok(stream) => {
                let ghost held = array_of(stream, name@, "<i4"@);
                match read_i32(stream, name) {
                    Ok(a) => {
                        assert(entry_holds(old(self).bytes(), name@, "<i4"@, held));
                        Ok(a)
                    },
                    Err(e) => Err(NpzError::Npy(e, name.to_owned())),
                }
            },
            Err(e) => Err(e),
        }
    }
}

/// Whether the entry `name` of the ZIP file `bytes` holds `contents`: reads up
/// to their end give what they begin with, and others fail.
pub open spec fn is_whole(bytes: Seq<u8>, name: Seq<char>, contents: Seq<u8>) -> bool {
    forall|ends: Seq<nat>|
        ends.len() == 4 && ends[0] <= ends[1] <= ends[2] <= ends[3] ==> #[trigger] zip_read(
            bytes,
            name,
            ends,
        ) == if ends[3] <= contents.len() {
            Some(contents.take(ends[3] as int))
        } else {
            None
        }
}

/// An entry that holds its contents reads as they do, and runs out where they
/// do.
pub proof fn law_whole_entries_read_as_their_contents(
    bytes: Seq<u8>,
    name: Seq<char>,
    dtype: Seq<char>,
    whole: ByteStream,
    held: Result<(Seq<u32>, Seq<usize>), NpyFault>,
)
    requires
        is_whole(bytes, name, whole.bytes@),
        whole.bytes@.len() <= isize::MAX,
        entry_holds(bytes, name, dtype, held),
    ensures
        match array_of(whole, name, dtype) {
            Err(NpyFault::Io(_, _)) => held matches Err(NpyFault::Io(_, _)),
            other => held == other,
        },
{
    let stream = choose|stream: ByteStream|
        yields(bytes, name, dtype, stream) && #[trigger] array_of(stream, name, dtype) == held;
    let front = stream.bytes@;
    let reads = reads_of(front, name, dtype);
    law_reads_go_forward(front, name, dtype);
    if front.len() > 0 {
        let ends = capped(reads, front.len());
        assert(zip_read(bytes, name, ends) == Some(front));
        assert(ends[3] <= whole.bytes@.len());
        assert(front == whole.bytes@.take(ends[3] as int));
    }
    assert(front.is_prefix_of(whole.bytes@));
    if reads[3] <= front.len() {
        law_settled_reads_are_final(stream, whole, name, dtype);
    } else {
        assert(whole.bytes@.len() < reads[3]) by {
            if stream.failure is Some {
                assert(zip_read(bytes, name, reads) is None);
            }
        }
        law_short_streams_run_out(front, whole, name, dtype);
        law_short_streams_run_out(front, stream, name, dtype);
    }
}

} // verus!
