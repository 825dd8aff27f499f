//! The pencil gallery's folder collections, and the compressed files that
//! hold the gallery index and each sampled pencil.
use vstd::prelude::*;
use crate::gzip::{gzip_encode, gzip_read, gzip_read_to_end, gzip_write};

verus! {

/// A folder of brush files imported into the pencil gallery as one
/// collection: its name in the gallery and the folder it came from.
#[derive(Debug, Clone)]
pub struct FolderCollection {
    pub name: String,
    pub source: String,
}

/// The largest gallery index or pencil file read, in bytes.
pub const MAX_GALLERY_FILE: u64 = 134_217_728;

/// The most data, in bytes, read out of a gallery index or pencil file.
pub const MAX_GALLERY_DATA: u64 = 335_544_320;

/// The data of a gallery index or pencil file `file`: refused with
/// `too_large` when the file is larger than [`MAX_GALLERY_FILE`], else its
/// gzip stream decompressed, through at most [`MAX_GALLERY_DATA`] bytes.
pub open spec fn gallery_contents(file: Seq<u8>, too_large: Seq<char>) -> Result<Seq<u8>, Seq<char>> {
    if file.len() > MAX_GALLERY_FILE {
        Err(too_large)
    } else {
        gzip_read_to_end(file, MAX_GALLERY_DATA as nat)
    }
}

fn gallery_data(file: &[u8], too_large: &str) -> (res: Result<Vec<u8>, String>)
    ensures
        match gallery_contents(file@, too_large@) {
            Ok(data) => res matches Ok(v) && v@ == data && data.len() <= MAX_GALLERY_DATA,
            Err(e) => res matches Err(x) && x@ == e,
        },
{
    if file.len() as u64 > MAX_GALLERY_FILE {
        return Err(String::from_str(too_large));
    }
    gzip_read(file, MAX_GALLERY_DATA)
}

/// The data of the gallery index file `file`.
pub fn gallery_text(file: &[u8]) -> (res: Result<Vec<u8>, String>)
    ensures
        match gallery_contents(file@, "Gallery is too large."@) {
            Ok(data) => res matches Ok(v) && v@ == data && data.len() <= MAX_GALLERY_DATA,
            Err(e) => res matches Err(x) && x@ == e,
        },
{
    gallery_data(file, "Gallery is too large.")
}

/// The data of the pencil file `file`.
pub fn pencil_text(file: &[u8]) -> (res: Result<Vec<u8>, String>)
    ensures
        match gallery_contents(file@, "Pencil file exceeds 128 MB."@) {
            Ok(data) => res matches Ok(v) && v@ == data && data.len() <= MAX_GALLERY_DATA,
            Err(e) => res matches Err(x) && x@ == e,
        },
{
    gallery_data(file, "Pencil file exceeds 128 MB.")
}

/// The file that holds the gallery data or pencil data `json`: its gzip
/// stream. A file written reads back, through [`gallery_text`] and
/// [`pencil_text`], as `json` when both fit their limits.
pub fn gallery_file(json: &[u8]) -> (v: Vec<u8>)
    ensures
        v@ == gzip_encode(json@),
        json@.len() <= MAX_GALLERY_DATA && v@.len() <= MAX_GALLERY_FILE ==> forall|too_large: Seq<char>|
            #[trigger] gallery_contents(v@, too_large) == Ok::<Seq<u8>, Seq<char>>(json@),
{
    match gzip_write(json) {
        Ok(v) => v,
        // Writing into a `Vec` does not fail: this arm is never taken.
        Err(_) => Vec::new(),
    }
}

} // verus!
