//! The files of a feed, and the archives they come in.

use std::io::Read;
use vstd::hash_map::StringHashMap;
use vstd::prelude::*;

use crate::text as t;

verus! {

// ---------------------------------------------------------------------------
// Archives
// ---------------------------------------------------------------------------

/// `std::io::Cursor`: a place in some bytes.
#[verifier::external_type_specification]
#[verifier::external_body]
#[verifier::reject_recursive_types(T)]
pub struct ExCursor<T>(std::io::Cursor<T>);

/// `zip::ZipArchive`: an opened archive.
#[verifier::external_type_specification]
#[verifier::external_body]
#[verifier::reject_recursive_types(R)]
pub struct ExZipArchive<R>(zip::ZipArchive<R>);

/// What `zip::ZipArchive::new` finds in some bytes: by the name of each file what reading it gives,
/// which is its bytes or the message of an error. If the bytes are no archive, the message of that
/// error.
pub uninterp spec fn zip_content(bytes: Seq<u8>) -> Result<
    Map<Seq<char>, Result<Seq<u8>, Seq<char>>>,
    Seq<char>,
>;

/// What an opened archive holds.
pub uninterp spec fn zip_held(archive: zip::ZipArchive<std::io::Cursor<&[u8]>>) -> Map<
    Seq<char>,
    Result<Seq<u8>, Seq<char>>,
>;

/// `zip::ZipArchive::new`: opens an archive. What it holds depends on the bytes alone.
#[verifier::external_body]
fn open_zip<'a>(bytes: &'a [u8]) -> (opened: Result<
    zip::ZipArchive<std::io::Cursor<&'a [u8]>>,
    String,
>)
    ensures
        match opened {
            Ok(archive) => zip_content(bytes@) == Ok::<
                Map<Seq<char>, Result<Seq<u8>, Seq<char>>>,
                Seq<char>,
            >(zip_held(archive)),
            Err(cause) => zip_content(bytes@) == Err::<
                Map<Seq<char>, Result<Seq<u8>, Seq<char>>>,
                Seq<char>,
            >(cause@),
        },
{
    match zip::ZipArchive::new(std::io::Cursor::new(bytes)) {
        Ok(archive) => Ok(archive),
        Err(e) => Err(e.to_string()),
    }
}

/// `zip::ZipArchive::by_name`: reads a file to its end. None if the archive has no file of that
/// name. What the archive holds stays.
#[verifier::external_body]
fn read_entry(archive: &mut zip::ZipArchive<std::io::Cursor<&[u8]>>, name: &str) -> (entry: Option<
    Result<Vec<u8>, String>,
>)
    ensures
        zip_held(*final(archive)) == zip_held(*old(archive)),
        option_view(entry) == content_of(zip_held(*old(archive)), name@),
{
    let mut contents = Vec::new();
    match archive.by_name(name) {
        Ok(mut file) => match file.read_to_end(&mut contents) {
            Ok(_) => Some(Ok(contents)),
            Err(e) => Some(Err(e.to_string())),
        },
        Err(zip::result::ZipError::FileNotFound) => None,
        Err(e) => Some(Err(e.to_string())),
    }
}

// ---------------------------------------------------------------------------
// Files
// ---------------------------------------------------------------------------

/// The content of a file as a mathematical value.
pub open spec fn content_view(x: Result<Vec<u8>, String>) -> Result<Seq<u8>, Seq<char>> {
    match x {
        Ok(v) => Ok(v@),
        Err(e) => Err(e@),
    }
}

pub open spec fn option_view(x: Option<Result<Vec<u8>, String>>) -> Option<
    Result<Seq<u8>, Seq<char>>,
> {
    match x {
        Some(c) => Some(content_view(c)),
        None => None,
    }
}

/// What reading a file gives, None if there is no such file.
pub open spec fn content_of(files: Map<Seq<char>, Result<Seq<u8>, Seq<char>>>, name: Seq<char>) -> Option<
    Result<Seq<u8>, Seq<char>>,
> {
    if files.contains_key(name) {
        Some(files[name])
    } else {
        None
    }
}

/// Files by name, each with its bytes or with why it cannot be read.
pub struct FeedFiles {
    pub entries: StringHashMap<Result<Vec<u8>, String>>,
}

impl View for FeedFiles {
    type V = Map<Seq<char>, Result<Seq<u8>, Seq<char>>>;

    open spec fn view(&self) -> Map<Seq<char>, Result<Seq<u8>, Seq<char>>> {
        self.entries@.map_values(|x: Result<Vec<u8>, String>| content_view(x))
    }
}

impl FeedFiles {
    /// No files.
    pub fn new() -> (r: FeedFiles)
        ensures
            r@ == Map::<Seq<char>, Result<Seq<u8>, Seq<char>>>::empty(),
    {
        let r = FeedFiles { entries: StringHashMap::new() };
        assert(r@ =~= Map::<Seq<char>, Result<Seq<u8>, Seq<char>>>::empty());
        r
    }

    /// Adds a file, or replaces it.
    pub fn put(&mut self, name: &str, content: Result<Vec<u8>, String>)
        ensures
            final(self)@ == old(self)@.insert(name@, content_view(content)),
    {
        self.entries.insert(t::copy_str(name), content);
        assert(self@ =~= old(self)@.insert(name@, content_view(content)));
    }

    /// What reading a file gives.
    pub fn get(&self, name: &str) -> (r: Option<&Result<Vec<u8>, String>>)
        ensures
            match r {
                Some(x) => content_of(self@, name@) == Some(content_view(*x)),
                None => content_of(self@, name@) is None,
            },
    {
        self.entries.get(name)
    }
}

/// Reads the files of the given names from an archive.
pub fn read_archive(bytes: &Vec<u8>, names: &Vec<&str>) -> (r: Result<FeedFiles, String>)
    ensures
        match r {
            Ok(files) => zip_content(bytes@) is Ok && forall|i: int|
                0 <= i < names@.len() ==> content_of(files@, (#[trigger] names@[i])@)
                    == content_of(zip_content(bytes@)->Ok_0, names@[i]@),
            Err(cause) => zip_content(bytes@) == Err::<
                Map<Seq<char>, Result<Seq<u8>, Seq<char>>>,
                Seq<char>,
            >(cause@),
        },
{
    let mut archive = match open_zip(bytes.as_slice()) {
        Ok(x) => x,
        Err(e) => return Err(e),
    };
    let ghost held = zip_held(archive);
    let mut files = FeedFiles::new();
    let mut i: usize = 0;
    while i < names.len()
        invariant
            i <= names@.len(),
            zip_held(archive) == held,
            forall|k: Seq<char>| #[trigger]
                files@.contains_key(k) ==> held.contains_key(k) && files@[k] == held[k],
            forall|k: int|
                0 <= k < i ==> content_of(files@, (#[trigger] names@[k])@) == content_of(
                    held,
                    names@[k]@,
                ),
        decreases names@.len() - i,
    {
        let ghost before = files@;
        match read_entry(&mut archive, names[i]) {
            Some(x) => {
                files.put(names[i], x);
            },
            None => {},
        }
        i += 1;
    }
    Ok(files)
}

} // verus!
