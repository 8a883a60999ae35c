//! The in-memory shapes of a wiki archive: pointer lists, directory
//! entries, clusters of blobs, and the articles and images they yield.

use vstd::prelude::*;
use crate::serial::{le_value, read_u16_le_at, read_u32_le_at, read_u64_le_at, read_u128_le_at};

verus! {

/// Why a part of the archive would not parse.
#[derive(Debug, Clone, Copy, PartialEq, Eq, Structural)]
pub enum ZimParseError {
    UnexpectedEndOfBytes,
    InvalidMagicNumber,
}

/// The archive's fixed 80-byte header.
#[derive(Debug, Clone, Copy, PartialEq, Eq, Structural)]
pub struct Header {
    pub magic: u32,
    pub major_version: u16,
    pub minor_version: u16,
    pub uuid: u128,
    pub entry_count: u32,
    pub cluster_count: u32,
    pub url_ptr_pos: u64,
    pub title_ptr_pos: u64,
    pub cluster_ptr_pos: u64,
    pub mime_list_pos: u64,
    pub main_page: u32,
    pub layout_page: u32,
    pub checksum_pos: u64,
}

impl Header {
    /// Parses the header's little-endian words from the archive's start:
    /// fails on a short buffer or a wrong magic number, and otherwise
    /// returns exactly the stored fields.
    pub fn from_bytes(bytes: &[u8]) -> (r: Result<Header, ZimParseError>)
        ensures
            bytes@.len() < 80 ==> r == Err::<Header, ZimParseError>(
                ZimParseError::UnexpectedEndOfBytes,
            ),
            bytes@.len() >= 80 && le_value(bytes@.subrange(0, 4)) != 72_173_914 ==> r
                == Err::<Header, ZimParseError>(ZimParseError::InvalidMagicNumber),
            bytes@.len() >= 80 && le_value(bytes@.subrange(0, 4)) == 72_173_914 ==> r is Ok
                && r->Ok_0 == (Header {
                magic: 72_173_914u32,
                major_version: le_value(bytes@.subrange(4, 6)) as u16,
                minor_version: le_value(bytes@.subrange(6, 8)) as u16,
                uuid: le_value(bytes@.subrange(8, 24)) as u128,
                entry_count: le_value(bytes@.subrange(24, 28)) as u32,
                cluster_count: le_value(bytes@.subrange(28, 32)) as u32,
                url_ptr_pos: le_value(bytes@.subrange(32, 40)) as u64,
                title_ptr_pos: le_value(bytes@.subrange(40, 48)) as u64,
                cluster_ptr_pos: le_value(bytes@.subrange(48, 56)) as u64,
                mime_list_pos: le_value(bytes@.subrange(56, 64)) as u64,
                main_page: le_value(bytes@.subrange(64, 68)) as u32,
                layout_page: le_value(bytes@.subrange(68, 72)) as u32,
                checksum_pos: le_value(bytes@.subrange(72, 80)) as u64,
            }),
    {
        if bytes.len() < 80 {
            return Err(ZimParseError::UnexpectedEndOfBytes);
        }
        let magic = read_u32_le_at(bytes, 0);
        if magic != 72_173_914 {
            return Err(ZimParseError::InvalidMagicNumber);
        }
        Ok(
            Header {
                magic,
                major_version: read_u16_le_at(bytes, 4),
                minor_version: read_u16_le_at(bytes, 6),
                uuid: read_u128_le_at(bytes, 8),
                entry_count: read_u32_le_at(bytes, 24),
                cluster_count: read_u32_le_at(bytes, 28),
                url_ptr_pos: read_u64_le_at(bytes, 32),
                title_ptr_pos: read_u64_le_at(bytes, 40),
                cluster_ptr_pos: read_u64_le_at(bytes, 48),
                mime_list_pos: read_u64_le_at(bytes, 56),
                main_page: read_u32_le_at(bytes, 64),
                layout_page: read_u32_le_at(bytes, 68),
                checksum_pos: read_u64_le_at(bytes, 72),
            },
        )
    }
}

/// The archive's mime-type table, indexed by the directory entries.
#[derive(Debug)]
pub struct MimeTypes(pub Vec<String>);

/// Byte position of one URL-ordered directory entry.
#[derive(Debug, Clone, Copy, PartialEq, Eq, Structural)]
pub struct UrlPointer(pub u64);

/// The URL-ordered pointer table.
#[derive(Debug)]
pub struct UrlPointerList(pub Vec<UrlPointer>);

impl UrlPointerList {
    /// Parses `num_urls` eight-byte little-endian pointers; fails exactly
    /// when the bytes run out.
    pub fn from_bytes(bytes: &[u8], num_urls: u32) -> (r: Result<UrlPointerList, ZimParseError>)
        ensures
            r is Ok <==> 8 * num_urls <= bytes@.len(),
            r is Ok ==> r->Ok_0.0@.len() == num_urls && forall|i: int|
                0 <= i < num_urls ==> (#[trigger] r->Ok_0.0@[i]).0 as nat == le_value(
                    bytes@.subrange(8 * i, 8 * i + 8),
                ),
    {
        let n = bytes.len();
        if (n as u64) / 8 < (num_urls as u64) {
            return Err(ZimParseError::UnexpectedEndOfBytes);
        }
        let mut pointers: Vec<UrlPointer> = Vec::new();
        let mut i: usize = 0;
        while i < num_urls as usize
            invariant
                i <= num_urls,
                8 * (num_urls as int) <= bytes@.len(),
                n == bytes@.len(),
                pointers@.len() == i,
                forall|k: int|
                    0 <= k < i ==> (#[trigger] pointers@[k]).0 as nat == le_value(
                        bytes@.subrange(8 * k, 8 * k + 8),
                    ),
            decreases num_urls - i,
        {
            pointers.push(UrlPointer(read_u64_le_at(bytes, 8 * i)));
            i = i + 1;
        }
        Ok(UrlPointerList(pointers))
    }
}

/// Index of one title-ordered directory entry.
#[derive(Debug, Clone, Copy, PartialEq, Eq, Structural)]
pub struct TitlePointer(pub u32);

/// The title-ordered pointer table.
#[derive(Debug)]
pub struct TitlePointerList(pub Vec<TitlePointer>);

impl TitlePointerList {
    /// Parses `num_titles` four-byte little-endian indices; fails exactly
    /// when the bytes run out.
    pub fn from_bytes(bytes: &[u8], num_titles: u32) -> (r: Result<
        TitlePointerList,
        ZimParseError,
    >)
        ensures
            r is Ok <==> 4 * num_titles <= bytes@.len(),
            r is Ok ==> r->Ok_0.0@.len() == num_titles && forall|i: int|
                0 <= i < num_titles ==> (#[trigger] r->Ok_0.0@[i]).0 as nat == le_value(
                    bytes@.subrange(4 * i, 4 * i + 4),
                ),
    {
        let n = bytes.len();
        if (n as u64) / 4 < (num_titles as u64) {
            return Err(ZimParseError::UnexpectedEndOfBytes);
        }
        let mut pointers: Vec<TitlePointer> = Vec::new();
        let mut i: usize = 0;
        while i < num_titles as usize
            invariant
                i <= num_titles,
                4 * (num_titles as int) <= bytes@.len(),
                n == bytes@.len(),
                pointers@.len() == i,
                forall|k: int|
                    0 <= k < i ==> (#[trigger] pointers@[k]).0 as nat == le_value(
                        bytes@.subrange(4 * k, 4 * k + 4),
                    ),
            decreases num_titles - i,
        {
            pointers.push(TitlePointer(read_u32_le_at(bytes, 4 * i)));
            i = i + 1;
        }
        Ok(TitlePointerList(pointers))
    }
}

/// One directory entry: content in a cluster, or a redirect to another entry.
#[derive(Debug)]
pub enum DirEntry {
    Content {
        mime_type: u16,
        parameter_len: u8,
        namespace: char,
        revision: u32,
        cluster_number: u32,
        blob_number: u32,
        url: String,
        title: String,
    },
    Redirect {
        mime_type: u16,
        parameter_len: u8,
        namespace: char,
        revision: u32,
        redirect_index: u32,
        url: String,
        title: String,
    },
}

/// A decompressed cluster: blob boundaries and the blob bytes themselves.
///
/// The offsets are as stored on disk: relative to the start of the offset
/// table, so blob `i` spans `offsets[i] - offsets[0] .. offsets[i+1] - offsets[0]`
/// of `blobs`.
#[derive(Debug)]
pub struct Cluster {
    blob_offsets: Vec<u64>,
    blobs: Vec<u8>,
}

impl Cluster {
    /// The stored blob boundaries.
    pub closed spec fn offsets_spec(self) -> Seq<u64> {
        self.blob_offsets@
    }

    /// The blob bytes.
    pub closed spec fn blobs_spec(self) -> Seq<u8> {
        self.blobs@
    }

    /// Boundaries start at or above the first one, never decrease, and end
    /// within the blob bytes.
    pub open spec fn wf(self) -> bool {
        &&& forall|i: int, j: int|
            0 <= i <= j < self.offsets_spec().len() ==> self.offsets_spec()[i]
                <= self.offsets_spec()[j]
        &&& self.offsets_spec().len() > 0 ==> self.offsets_spec().last()
            - self.offsets_spec()[0] <= self.blobs_spec().len()
    }

    /// Assembles a cluster from decoded boundaries and blob bytes.
    pub fn from_parts(blob_offsets: Vec<u64>, blobs: Vec<u8>) -> (r: Self)
        requires
            forall|i: int, j: int|
                0 <= i <= j < blob_offsets@.len() ==> blob_offsets@[i] <= blob_offsets@[j],
            blob_offsets@.len() > 0 ==> blob_offsets@.last() - blob_offsets@[0]
                <= blobs@.len(),
        ensures
            r.wf(),
            r.offsets_spec() == blob_offsets@,
            r.blobs_spec() == blobs@,
    {
        Cluster { blob_offsets, blobs }
    }

    /// The bytes of blob `blob_number`, or `None` when the cluster has no
    /// such blob.
    pub fn get_blob(&self, blob_number: usize) -> (r: Option<Vec<u8>>)
        requires
            self.wf(),
        ensures
            match r {
                Some(blob) => {
                    &&& self.offsets_spec().len() > 0
                    &&& blob_number < self.offsets_spec().len() - 1
                    &&& blob@ == self.blobs_spec().subrange(
                        self.offsets_spec()[blob_number as int] - self.offsets_spec()[0],
                        self.offsets_spec()[blob_number as int + 1] - self.offsets_spec()[0],
                    )
                },
                None => self.offsets_spec().len() == 0 || blob_number >= self.offsets_spec().len()
                    - 1,
            },
    {
        if self.blob_offsets.len() == 0 {
            return None;
        }
        if blob_number >= self.blob_offsets.len() - 1 {
            return None;
        }
        let blobs_len = self.blobs.len();
        let base = self.blob_offsets[0];
        proof {
            let offs = self.offsets_spec();
            let bn = blob_number as int;
            assert(offs[0] <= offs[bn]);
            assert(offs[0] <= offs[bn + 1]);
            assert(offs[bn] <= offs[bn + 1]);
            assert(offs[bn] <= offs[offs.len() - 1]);
            assert(offs[bn + 1] <= offs[offs.len() - 1]);
        }
        let offset = (self.blob_offsets[blob_number] - base) as usize;
        let next_offset = (self.blob_offsets[blob_number + 1] - base) as usize;
        let blob: Vec<u8> = vstd::slice::slice_to_vec(
            &self.blobs.as_slice()[offset..next_offset],
        );
        Some(blob)
    }
}

/// One wiki article, decoded from its cluster.
#[derive(Debug)]
pub struct Article {
    pub url: String,
    pub title: String,
    pub content: String,
}

/// One image, decoded from its cluster.
#[derive(Debug)]
pub struct Image {
    pub url: String,
    pub mime_type: String,
    pub content: Vec<u8>,
}

impl Image {
    /// The image's raw bytes.
    pub fn bytes(&self) -> (r: &[u8])
        ensures
            r@ == self.content@,
    {
        self.content.as_slice()
    }
}

} // verus!
