//! Reader for the packed resource-archive container format: header
//! validation, version-specific table-of-contents parsing, and extraction of
//! a named resource's bytes.
//!
//! All functions work on the container's bytes; opening the file and reading
//! it into memory is the caller's business.

use vstd::prelude::*;

use crate::codec::{decode_utf16le, read_u32, spec_decode_utf16le, spec_u32_le};
use crate::text::{lower_ascii, lower_chars};

verus! {

/// Everything that can go wrong while reading an archive.
#[derive(Debug)]
pub enum ErfError {
    /// The 8-byte magic field did not decode to the required literal.
    InvalidHeader { expected: String, found: String },
    /// The magic matched but the version field is not a recognized revision.
    UnsupportedVersion(String),
    /// The data ends before the record being read does.
    Truncated,
    /// The requested resource name is not in the table of contents.
    InvalidResourceName(String),
    /// A table-of-contents record decoded to an empty name.
    EmptyTocName { index: usize },
    /// A UTF-16 field has an odd byte count.
    InvalidStringEncoding,
}

pub type ErfResult<T> = Result<T, ErfError>;

/// The two recognized revisions of the container format.
#[derive(Debug, Clone, Copy, PartialEq, Eq, Structural)]
pub enum ErfVersion {
    V20,
    V22,
}

/// One table-of-contents record: a resource name and where its bytes live.
#[derive(Debug)]
pub struct ErfTocEntry {
    pub name: String,
    pub offset: u32,
    pub packed_length: u32,
    pub length: u32,
}

/// A resource record in the richer layout that related tools of this
/// format family use; the reader itself does not fill it in.
#[derive(Debug)]
pub struct ResourceEntry {
    pub resref: String,
    pub resid: u16,
    pub restype: u16,
    pub offset: u32,
    pub length: u32,
}

/// A parsed archive: header fields, the ordered table of contents, and a
/// case-folded name index (an association list, first match wins; it stands
/// in for a hash map and maps each folded name to its last-seen entry).
#[derive(Debug)]
pub struct ErfFile {
    pub version: ErfVersion,
    pub year: u32,
    pub day: u32,
    pub module_id: u32,
    pub toc: Vec<ErfTocEntry>,
    pub by_name: Vec<(String, usize)>,
}

/// Bytes in one table-of-contents record of the given revision.
pub open spec fn spec_entry_width(v: ErfVersion) -> int {
    if v is V22 {
        76
    } else {
        72
    }
}

/// Decoded 8-byte magic field.
pub open spec fn spec_magic_chars(data: Seq<u8>) -> Seq<char> {
    spec_decode_utf16le(data.subrange(0, 8))
}

/// Decoded 8-byte version field.
pub open spec fn spec_version_chars(data: Seq<u8>) -> Seq<char> {
    spec_decode_utf16le(data.subrange(8, 16))
}

/// Declared number of table-of-contents records.
pub open spec fn spec_file_count(data: Seq<u8>) -> u32 {
    spec_u32_le(data.subrange(16, 20))
}

/// Declared creation year.
pub open spec fn spec_year(data: Seq<u8>) -> u32 {
    spec_u32_le(data.subrange(20, 24))
}

/// Declared creation day.
pub open spec fn spec_day(data: Seq<u8>) -> u32 {
    spec_u32_le(data.subrange(24, 28))
}

/// The module identifier is stored only by the newer revision; the older one
/// reports zero.
pub open spec fn spec_module_id(data: Seq<u8>, v: ErfVersion) -> u32 {
    if v is V22 {
        spec_u32_le(data.subrange(28, 32))
    } else {
        0
    }
}

/// Byte offset of record `i` in the container.
pub open spec fn spec_entry_start(v: ErfVersion, i: int) -> int {
    32 + i * spec_entry_width(v)
}

/// True when the first `k` records lie wholly inside the data.
pub open spec fn entries_fit(data: Seq<u8>, v: ErfVersion, k: int) -> bool {
    32 + k * spec_entry_width(v) <= data.len()
}

/// Decoded name of record `i`.
pub open spec fn spec_entry_name(data: Seq<u8>, v: ErfVersion, i: int) -> Seq<char> {
    spec_decode_utf16le(data.subrange(spec_entry_start(v, i), spec_entry_start(v, i) + 64))
}

/// Stored byte offset of record `i`'s resource.
pub open spec fn spec_entry_offset(data: Seq<u8>, v: ErfVersion, i: int) -> u32 {
    spec_u32_le(data.subrange(spec_entry_start(v, i) + 64, spec_entry_start(v, i) + 68))
}

/// Stored on-disk (packed) length of record `i`'s resource.
pub open spec fn spec_entry_packed(data: Seq<u8>, v: ErfVersion, i: int) -> u32 {
    spec_u32_le(data.subrange(spec_entry_start(v, i) + 68, spec_entry_start(v, i) + 72))
}

/// The logical length: its own field in the newer revision, the packed
/// length in the older one.
pub open spec fn spec_entry_length(data: Seq<u8>, v: ErfVersion, i: int) -> u32 {
    if v is V22 {
        spec_u32_le(data.subrange(spec_entry_start(v, i) + 72, spec_entry_start(v, i) + 76))
    } else {
        spec_entry_packed(data, v, i)
    }
}

/// The in-memory record `e` holds exactly what record `i` of the data says.
pub open spec fn entry_matches(e: ErfTocEntry, data: Seq<u8>, v: ErfVersion, i: int) -> bool {
    &&& e.name@ == spec_entry_name(data, v, i)
    &&& e.offset == spec_entry_offset(data, v, i)
    &&& e.packed_length == spec_entry_packed(data, v, i)
    &&& e.length == spec_entry_length(data, v, i)
}

/// First record index at which parsing fails (record truncated or name
/// empty) when scanning from `i` on, or the record count if none does.
pub open spec fn spec_first_bad_from(data: Seq<u8>, v: ErfVersion, i: int) -> int
    decreases spec_file_count(data) - i,
{
    let count = spec_file_count(data) as int;
    if i >= count {
        count
    } else if !entries_fit(data, v, i + 1) {
        i
    } else if spec_entry_name(data, v, i).len() == 0 {
        i
    } else {
        spec_first_bad_from(data, v, i + 1)
    }
}

/// First record index at which parsing fails, or the record count.
pub open spec fn spec_first_bad(data: Seq<u8>, v: ErfVersion) -> int {
    spec_first_bad_from(data, v, 0)
}

/// True when the whole table of contents parses under revision `v`.
pub open spec fn spec_parse_ok(data: Seq<u8>, v: ErfVersion) -> bool {
    data.len() >= 32 && spec_first_bad(data, v) == spec_file_count(data)
}

/// The exact error `parse` reports when it fails on `data`.
pub open spec fn spec_parse_error_matches(e: ErfError, data: Seq<u8>, v: ErfVersion) -> bool {
    if data.len() < 32 {
        e is Truncated
    } else {
        let fb = spec_first_bad(data, v);
        let count = spec_file_count(data) as int;
        if fb < count && !entries_fit(data, v, fb + 1) {
            e is Truncated
        } else if fb < count {
            e matches ErfError::EmptyTocName { index } && index == fb
        } else {
            true
        }
    }
}

/// The exact error `from_reader` reports when it fails on `data`: a short
/// header, a wrong magic, an unrecognized version, or a parse failure.
pub open spec fn spec_read_error_matches(e: ErfError, data: Seq<u8>) -> bool {
    if data.len() < 16 {
        e is Truncated
    } else if spec_magic_chars(data) != "ERF "@ {
        e matches ErfError::InvalidHeader { expected, found } && expected@ == "ERF "@ && found@
            == spec_magic_chars(data)
    } else if spec_version_tag(data) is None {
        e matches ErfError::UnsupportedVersion(s) && s@ == spec_version_chars(data)
    } else {
        spec_parse_error_matches(e, data, spec_version_tag(data)->0)
    }
}

/// The revision the header announces, if the magic matches and the version
/// is one of the recognized literals.
pub open spec fn spec_version_tag(data: Seq<u8>) -> Option<ErfVersion> {
    if spec_magic_chars(data) != "ERF "@ {
        None
    } else if spec_version_chars(data) == "V2.0"@ {
        Some(ErfVersion::V20)
    } else if spec_version_chars(data) == "V2.2"@ {
        Some(ErfVersion::V22)
    } else {
        None
    }
}

/// The header fields and table of contents of `f` are exactly those of
/// `data` read under revision `v`.
pub open spec fn file_matches(f: ErfFile, data: Seq<u8>, v: ErfVersion) -> bool {
    &&& f.version == v
    &&& f.year == spec_year(data)
    &&& f.day == spec_day(data)
    &&& f.module_id == spec_module_id(data, v)
    &&& f.toc@.len() == spec_file_count(data)
    &&& forall|i: int| 0 <= i < f.toc@.len() ==> entry_matches(#[trigger] f.toc@[i], data, v, i)
}

/// The last table-of-contents index whose folded name is `key`, or -1.
pub open spec fn last_name_index(toc: Seq<ErfTocEntry>, key: Seq<char>) -> int
    decreases toc.len(),
{
    if toc.len() == 0 {
        -1
    } else if lower_chars(toc.last().name@) == key {
        toc.len() - 1
    } else {
        last_name_index(toc.drop_last(), key)
    }
}

/// First index of `key` in the association list, or -1.
pub open spec fn assoc_index(m: Seq<(String, usize)>, key: Seq<char>) -> int
    decreases m.len(),
{
    if m.len() == 0 {
        -1
    } else if m[0].0@ == key {
        0
    } else {
        let r = assoc_index(m.drop_first(), key);
        if r < 0 {
            -1
        } else {
            r + 1
        }
    }
}

/// `assoc_index` finds the first occurrence of `key`, if there is one.
pub proof fn lemma_assoc_index_props(m: Seq<(String, usize)>, key: Seq<char>)
    ensures
        -1 <= assoc_index(m, key) < m.len(),
        assoc_index(m, key) >= 0 ==> m[assoc_index(m, key)].0@ == key,
        assoc_index(m, key) >= 0 ==> forall|t: int|
            0 <= t < assoc_index(m, key) ==> (#[trigger] m[t]).0@ != key,
        assoc_index(m, key) == -1 ==> forall|t: int|
            0 <= t < m.len() ==> (#[trigger] m[t]).0@ != key,
    decreases m.len(),
{
    if m.len() > 0 && m[0].0@ != key {
        lemma_assoc_index_props(m.drop_first(), key);
        assert forall|t: int| 1 <= t < m.len() implies m[t] == m.drop_first()[t - 1] by {}
    }
}

/// `last_name_index` finds the last matching entry, if there is one.
pub proof fn lemma_last_name_index_props(toc: Seq<ErfTocEntry>, key: Seq<char>)
    ensures
        -1 <= last_name_index(toc, key) < toc.len(),
        last_name_index(toc, key) >= 0 ==> lower_chars(
            toc[last_name_index(toc, key)].name@,
        ) == key,
        forall|t: int|
            last_name_index(toc, key) < t < toc.len() ==> lower_chars(
                (#[trigger] toc[t]).name@,
            ) != key,
    decreases toc.len(),
{
    if toc.len() > 0 && lower_chars(toc.last().name@) != key {
        lemma_last_name_index_props(toc.drop_last(), key);
        assert forall|t: int| 0 <= t < toc.len() - 1 implies toc[t] == toc.drop_last()[t] by {}
    }
}

/// The name index `bn` is exactly the last-seen folded-name lookup for `toc`.
pub open spec fn lookup_ok_entries(bn: Seq<(String, usize)>, toc: Seq<ErfTocEntry>) -> bool {
    &&& forall|j: int|
        0 <= j < bn.len() ==> {
            let p = #[trigger] bn[j];
            &&& (p.1 as int) < toc.len()
            &&& p.0@ == lower_chars(toc[p.1 as int].name@)
            &&& p.1 as int == last_name_index(toc, p.0@)
        }
    &&& forall|i: int|
        0 <= i < toc.len() ==> assoc_index(bn, lower_chars((#[trigger] toc[i]).name@)) >= 0
    &&& forall|j1: int, j2: int|
        0 <= j1 < j2 < bn.len() ==> (#[trigger] bn[j1]).0@ != (#[trigger] bn[j2]).0@
}

/// The bytes `get_resource` yields for `name`, if any: the slice addressed
/// by the last entry whose folded name matches, when it lies inside `data`.
pub open spec fn spec_resource(toc: Seq<ErfTocEntry>, data: Seq<u8>, name: Seq<char>) -> Option<
    Seq<u8>,
> {
    let li = last_name_index(toc, lower_chars(name));
    if li < 0 {
        None
    } else {
        let e = toc[li];
        if e.offset + e.length <= data.len() {
            Some(data.subrange(e.offset as int, e.offset + e.length))
        } else {
            None
        }
    }
}

impl ErfFile {
    /// Structural soundness of a parsed archive: non-empty names, one length
    /// field in the older revision, and a faithful name index.
    pub open spec fn wf(&self) -> bool {
        &&& forall|i: int| 0 <= i < self.toc@.len() ==> (#[trigger] self.toc@[i]).name@.len() > 0
        &&& self.version is V20 ==> forall|i: int|
            0 <= i < self.toc@.len() ==> (#[trigger] self.toc@[i]).packed_length
                == self.toc@[i].length
        &&& lookup_ok_entries(self.by_name@, self.toc@)
    }

    /// Reads the 16-byte header: the decoded magic and version fields.
    pub fn read_header(data: &[u8]) -> (r: ErfResult<(String, String)>)
        ensures
            data@.len() < 16 ==> r matches Err(ErfError::Truncated),
            data@.len() >= 16 ==> (r matches Ok(p) && p.0@ == spec_magic_chars(data@) && p.1@
                == spec_version_chars(data@)),
    {
        if data.len() < 16 {
            return Err(ErfError::Truncated);
        }
        let magic = match decode_utf16le(&data[0..8]) {
            Ok(s) => s,
            Err(e) => { return Err(e) },
        };
        let version = match decode_utf16le(&data[8..16]) {
            Ok(s) => s,
            Err(e) => { return Err(e) },
        };
        Ok((magic, version))
    }

    /// Validates the header and parses the whole container.
    pub fn from_reader(data: &[u8]) -> (r: ErfResult<ErfFile>)
        ensures
            (r is Ok <==> (data@.len() >= 16 && spec_version_tag(data@) is Some && spec_parse_ok(
                data@,
                spec_version_tag(data@)->0,
            ))),
            r matches Ok(f) ==> f.wf() && file_matches(f, data@, spec_version_tag(data@)->0),
            r matches Err(e) ==> spec_read_error_matches(e, data@),
    {
        let header = match Self::read_header(data) {
            Ok(p) => p,
            Err(e) => { return Err(e) },
        };
        let (magic, version_str) = header;
        let expected = String::from_str("ERF ");
        if !(magic == expected) {
            return Err(ErfError::InvalidHeader { expected, found: magic });
        }
        let v20 = String::from_str("V2.0");
        let v22 = String::from_str("V2.2");
        if version_str == v20 {
            Self::parse(data, ErfVersion::V20)
        } else if version_str == v22 {
            Self::parse(data, ErfVersion::V22)
        } else {
            Err(ErfError::UnsupportedVersion(version_str))
        }
    }

    /// Parses the count record and every table-of-contents record of an
    /// already-validated container.
    pub fn parse(data: &[u8], version: ErfVersion) -> (r: ErfResult<ErfFile>)
        ensures
            (r is Ok <==> spec_parse_ok(data@, version)),
            r matches Ok(f) ==> f.wf() && file_matches(f, data@, version),
            r matches Err(e) ==> spec_parse_error_matches(e, data@, version),
    {
        let n = data.len();
        if n < 32 {
            return Err(ErfError::Truncated);
        }
        let file_count = read_u32(&data[16..20]);
        let year = read_u32(&data[20..24]);
        let day = read_u32(&data[24..28]);
        let module_id = if version == ErfVersion::V22 {
            read_u32(&data[28..32])
        } else {
            0
        };
        let width: usize = if version == ErfVersion::V22 {
            76
        } else {
            72
        };
        let count = file_count as usize;
        let mut toc: Vec<ErfTocEntry> = Vec::new();
        let mut by_name: Vec<(String, usize)> = Vec::new();
        let mut i: usize = 0;
        let mut pos: usize = 32;
        while i < count
            invariant
                n == data@.len(),
                n >= 32,
                count == spec_file_count(data@),
                width == spec_entry_width(version),
                i <= count,
                pos == spec_entry_start(version, i as int),
                entries_fit(data@, version, i as int),
                spec_first_bad(data@, version) == spec_first_bad_from(data@, version, i as int),
                toc@.len() == i,
                forall|k: int|
                    0 <= k < i ==> entry_matches(#[trigger] toc@[k], data@, version, k as int),
                forall|k: int| 0 <= k < i ==> (#[trigger] toc@[k]).name@.len() > 0,
                lookup_ok_entries(by_name@, toc@),
            decreases count - i,
        {
            if width > n - pos {
                assert(!entries_fit(data@, version, i as int + 1));
                assert(spec_first_bad_from(data@, version, i as int) == i as int);
                return Err(ErfError::Truncated);
            }
            assert(entries_fit(data@, version, i as int + 1));
            let name = match decode_utf16le(&data[pos..pos + 64]) {
                Ok(s) => s,
                Err(e) => { return Err(e) },
            };
            assert(name@ == spec_entry_name(data@, version, i as int));
            if name.as_str().unicode_len() == 0 {
                assert(spec_first_bad_from(data@, version, i as int) == i as int);
                return Err(ErfError::EmptyTocName { index: i });
            }
            let offset = read_u32(&data[pos + 64..pos + 68]);
            let packed_length = read_u32(&data[pos + 68..pos + 72]);
            let length = if version == ErfVersion::V22 {
                read_u32(&data[pos + 72..pos + 76])
            } else {
                packed_length
            };
            let key = lower_ascii(name.as_str());
            let ghost toc0 = toc@;
            let ghost bn0 = by_name@;
            let entry = ErfTocEntry { name, offset, packed_length, length };
            let ghost e = entry;
            toc.push(entry);
            proof {
                lemma_assoc_index_props(bn0, key@);
            }
            assoc_upsert(&mut by_name, key, i);
            proof {
                let toc1 = toc@;
                let bn1 = by_name@;
                let k0 = lower_chars(e.name@);
                assert(toc1.drop_last() =~= toc0);
                assert(toc1.last() == e);
                // how the last-seen index moves when one record is appended
                assert forall|k: Seq<char>| true implies #[trigger] last_name_index(toc1, k) == (
                if k == k0 {
                    i as int
                } else {
                    last_name_index(toc0, k)
                }) by {
                    if k == k0 {
                        assert(last_name_index(toc1, k) == toc1.len() - 1);
                    } else {
                        assert(last_name_index(toc1, k) == last_name_index(toc1.drop_last(), k));
                    }
                }
                let gi = assoc_index(bn0, k0);
                assert forall|j1: int, j2: int| 0 <= j1 < j2 < bn1.len() implies (
                #[trigger] bn1[j1]).0@ != (#[trigger] bn1[j2]).0@ by {
                    if gi < 0 && j2 == bn1.len() - 1 {
                        assert(bn1[j1].0@ == bn0[j1].0@);
                        assert(bn1[j2].0@ == k0);
                    }
                }
                assert forall|j: int| 0 <= j < bn1.len() implies {
                    let p = #[trigger] bn1[j];
                    &&& (p.1 as int) < toc1.len()
                    &&& p.0@ == lower_chars(toc1[p.1 as int].name@)
                    &&& p.1 as int == last_name_index(toc1, p.0@)
                } by {
                    if gi >= 0 {
                        if j == gi {
                            assert(bn1[j] == (bn0[gi].0, i));
                            assert(bn0[gi].0@ == k0);
                            assert(toc1[i as int] == e);
                        } else {
                            assert(bn1[j] == bn0[j]);
                            assert(bn0[j].0@ != k0) by {
                                if bn0[j].0@ == k0 {
                                    assert(bn0[j].0@ == bn0[gi].0@);
                                }
                            }
                            assert(toc1[bn0[j].1 as int] == toc0[bn0[j].1 as int]);
                        }
                    } else {
                        if j == bn1.len() - 1 {
                            assert(bn1[j] == (key, i));
                            assert(toc1[i as int] == e);
                        } else {
                            assert(bn1[j] == bn0[j]);
                            assert(bn0[j].0@ != k0);
                            assert(toc1[bn0[j].1 as int] == toc0[bn0[j].1 as int]);
                        }
                    }
                }
                assert forall|t: int| 0 <= t < toc1.len() implies assoc_index(
                    bn1,
                    lower_chars((#[trigger] toc1[t]).name@),
                ) >= 0 by {
                    let kt = lower_chars(toc1[t].name@);
                    lemma_assoc_index_props(bn1, kt);
                    if t == toc1.len() - 1 || kt == k0 {
                        if gi >= 0 {
                            assert(bn1[gi].0@ == k0);
                        } else {
                            assert(bn1[bn1.len() - 1].0@ == k0);
                        }
                        if assoc_index(bn1, kt) == -1 {
                            assert(false);
                        }
                    } else {
                        assert(toc1[t] == toc0[t]);
                        assert(assoc_index(bn0, kt) >= 0);
                        lemma_assoc_index_props(bn0, kt);
                        let j0 = assoc_index(bn0, kt);
                        assert(bn1[j0].0@ == kt);
                        if assoc_index(bn1, kt) == -1 {
                            assert(false);
                        }
                    }
                }
                assert(spec_first_bad_from(data@, version, i as int) == spec_first_bad_from(
                    data@,
                    version,
                    i as int + 1,
                ));
            }
            pos = pos + width;
            i = i + 1;
        }
        assert(spec_first_bad_from(data@, version, count as int) == count as int);
        Ok(ErfFile { version, year, day, module_id, toc, by_name })
    }

    /// Looks a resource up by name (case-insensitively) and returns its
    /// bytes, read from `data` at the entry's stored offset and length.
    pub fn get_resource(&self, name: &str, data: &[u8]) -> (r: ErfResult<Vec<u8>>)
        requires
            self.wf(),
        ensures
            (r is Ok <==> spec_resource(self.toc@, data@, name@) is Some),
            r matches Ok(b) ==> b@ == spec_resource(self.toc@, data@, name@)->0,
            last_name_index(self.toc@, lower_chars(name@)) == -1 ==> (r matches Err(
                ErfError::InvalidResourceName(s),
            ) && s@ == name@),
            last_name_index(self.toc@, lower_chars(name@)) >= 0 && spec_resource(
                self.toc@,
                data@,
                name@,
            ) is None ==> r matches Err(ErfError::Truncated),
    {
        let key = lower_ascii(name);
        proof {
            lemma_last_name_index_props(self.toc@, key@);
        }
        match assoc_find(&self.by_name, &key) {
            None => {
                proof {
                    let li = last_name_index(self.toc@, key@);
                    if li >= 0 {
                        assert(assoc_index(
                            self.by_name@,
                            lower_chars(self.toc@[li].name@),
                        ) >= 0);
                    }
                }
                Err(ErfError::InvalidResourceName(String::from_str(name)))
            },
            Some(idx) => {
                proof {
                    lemma_assoc_index_props(self.by_name@, key@);
                    let a = assoc_index(self.by_name@, key@);
                    assert(self.by_name@[a].0@ == key@);
                    assert(idx as int == last_name_index(self.toc@, key@));
                }
                let e_offset = self.toc[idx].offset;
                let e_length = self.toc[idx].length;
                let dn = data.len();
                if (e_offset as u64) + (e_length as u64) <= (dn as u64) {
                    let off = e_offset as usize;
                    let l = e_length as usize;
                    let mut out: Vec<u8> = Vec::new();
                    let mut t: usize = 0;
                    while t < l
                        invariant
                            t <= l,
                            off + l <= dn,
                            dn == data@.len(),
                            out@ =~= data@.subrange(off as int, off as int + t as int),
                        decreases l - t,
                    {
                        out.push(data[off + t]);
                        t = t + 1;
                    }
                    assert(out@ =~= data@.subrange(
                        e_offset as int,
                        e_offset as int + e_length as int,
                    ));
                    Ok(out)
                } else {
                    Err(ErfError::Truncated)
                }
            },
        }
    }
}

/// Finds `key` in the association list and returns its value.
fn assoc_find(m: &Vec<(String, usize)>, key: &String) -> (r: Option<usize>)
    ensures
        r matches Some(v) ==> assoc_index(m@, key@) >= 0 && v == m@[assoc_index(m@, key@)].1,
        r is None ==> assoc_index(m@, key@) == -1,
{
    let n = m.len();
    let mut j: usize = 0;
    while j < n
        invariant
            j <= n,
            n == m@.len(),
            forall|t: int| 0 <= t < j ==> (#[trigger] m@[t]).0@ != key@,
        decreases n - j,
    {
        if m[j].0 == *key {
            proof {
                lemma_assoc_index_props(m@, key@);
                let a = assoc_index(m@, key@);
                assert(a == j as int) by {
                    if a == -1 {
                        assert(m@[j as int].0@ != key@);
                    } else if a < j as int {
                        assert(m@[a].0@ != key@);
                    } else if a > j as int {
                        assert(m@[j as int].0@ != key@);
                    }
                }
            }
            return Some(m[j].1);
        }
        j = j + 1;
    }
    proof {
        lemma_assoc_index_props(m@, key@);
        let a = assoc_index(m@, key@);
        if a >= 0 {
            assert(m@[a].0@ != key@);
        }
    }
    None
}

/// Inserts `key -> val` into the association list: an existing key keeps its
/// place and takes the new value; a new key is appended.
fn assoc_upsert(m: &mut Vec<(String, usize)>, key: String, val: usize)
    ensures
        assoc_index(old(m)@, key@) >= 0 ==> final(m)@ == old(m)@.update(
            assoc_index(old(m)@, key@),
            (old(m)@[assoc_index(old(m)@, key@)].0, val),
        ),
        assoc_index(old(m)@, key@) < 0 ==> final(m)@ == old(m)@.push((key, val)),
{
    let n = m.len();
    let mut j: usize = 0;
    while j < n
        invariant
            j <= n,
            n == m@.len(),
            m@ == old(m)@,
            forall|t: int| 0 <= t < j ==> (#[trigger] m@[t]).0@ != key@,
        decreases n - j,
    {
        if m[j].0 == key {
            proof {
                lemma_assoc_index_props(m@, key@);
                let a = assoc_index(m@, key@);
                assert(a == j as int) by {
                    if a == -1 {
                        assert(m@[j as int].0@ != key@);
                    } else if a < j as int {
                        assert(m@[a].0@ != key@);
                    } else if a > j as int {
                        assert(m@[j as int].0@ != key@);
                    }
                }
            }
            let p = &mut m[j];
            p.1 = val;
            assert(final(m)@ =~= old(m)@.update(j as int, (old(m)@[j as int].0, val)));
            return;
        }
        j = j + 1;
    }
    proof {
        lemma_assoc_index_props(m@, key@);
        let a = assoc_index(m@, key@);
        if a >= 0 {
            assert(m@[a].0@ != key@);
        }
    }
    m.push((key, val));
}

/// A V2.0 table of contents never distinguishes packed and logical lengths:
/// both fields of every entry agree.
pub proof fn lemma_v20_packed_equals_length(f: ErfFile, i: int)
    requires
        f.wf(),
        f.version is V20,
        0 <= i < f.toc@.len(),
    ensures
        f.toc@[i].packed_length == f.toc@[i].length,
{
}

/// Resource lookup is case-insensitive: two names with the same folding
/// resolve to the same entry and the same bytes.
pub proof fn lemma_resource_case_insensitive(
    toc: Seq<ErfTocEntry>,
    data: Seq<u8>,
    n1: Seq<char>,
    n2: Seq<char>,
)
    requires
        lower_chars(n1) == lower_chars(n2),
    ensures
        spec_resource(toc, data, n1) == spec_resource(toc, data, n2),
{
}

/// A successful extraction returns exactly as many bytes as the entry's
/// declared logical length.
pub proof fn lemma_resource_length(toc: Seq<ErfTocEntry>, data: Seq<u8>, name: Seq<char>)
    requires
        spec_resource(toc, data, name) is Some,
    ensures
        spec_resource(toc, data, name)->0.len() == toc[last_name_index(
            toc,
            lower_chars(name),
        )].length,
{
}

} // verus!
