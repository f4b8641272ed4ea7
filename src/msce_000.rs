//! The `.000` manifest: a fixed header, three text fields, then six counted
//! tables read back to back.
use vstd::prelude::*;

use crate::bytes::{
    le16, le32, read_bytes, read_table, read_u16, read_u16s, read_u32, lemma_table_nth, table_decoded, table_fits,
    table_pos, u16s_at, Record,
};
use crate::strings::{push_char, padded_end, text_at, text_fits, WinNullString};
use crate::DecodeError;
use std::collections::HashMap;
use vstd::string::{StrSliceExecFns, StringExecFns};

verus! {

broadcast use vstd::std_specs::hash::group_hash_axioms;

/// Size in bytes of the manifest header.
pub const HEADER_LEN: usize = 100;

/// Whether `d` starts with the `MSCE` tag.
pub open spec fn has_magic(d: Seq<u8>) -> bool {
    &&& d.len() >= 4
    &&& d[0] == 0x4d
    &&& d[1] == 0x53
    &&& d[2] == 0x43
    &&& d[3] == 0x45
}

/// The fixed-size header at the start of a manifest.
pub struct Header {
    pub unk_04: u32,
    pub file_length: u32,
    pub unk_12: u32,
    pub unk_16: u32,
    pub target_architecture: u32,
    pub min_ce_version_major: u32,
    pub min_ce_version_minor: u32,
    pub max_ce_version_major: u32,
    pub max_ce_version_minor: u32,
    pub min_ce_build_number: u32,
    pub max_ce_build_number: u32,
    pub num_entries_strings: u16,
    pub num_entries_dirs: u16,
    pub num_entries_files: u16,
    pub num_entries_reg_hives: u16,
    pub num_entries_reg_keys: u16,
    pub num_entries_links: u16,
    pub offset_strings: u32,
    pub offset_dirs: u32,
    pub offset_files: u32,
    pub offset_reg_hives: u32,
    pub offset_reg_keys: u32,
    pub offset_links: u32,
    pub offset_app_name: u16,
    pub length_app_name: u16,
    pub offset_provider: u16,
    pub length_provider: u16,
    pub offset_unsupported: u16,
    pub length_unsupported: u16,
    pub unk_96: u16,
    pub unk_98: u16,
}

impl Header {
    /// Whether `self` holds the header fields stored at the start of `d`.
    pub open spec fn decoded_from(&self, d: Seq<u8>) -> bool {
        &&& self.unk_04 as int == le32(d, 4)
        &&& self.file_length as int == le32(d, 8)
        &&& self.unk_12 as int == le32(d, 12)
        &&& self.unk_16 as int == le32(d, 16)
        &&& self.target_architecture as int == le32(d, 20)
        &&& self.min_ce_version_major as int == le32(d, 24)
        &&& self.min_ce_version_minor as int == le32(d, 28)
        &&& self.max_ce_version_major as int == le32(d, 32)
        &&& self.max_ce_version_minor as int == le32(d, 36)
        &&& self.min_ce_build_number as int == le32(d, 40)
        &&& self.max_ce_build_number as int == le32(d, 44)
        &&& self.num_entries_strings as int == le16(d, 48)
        &&& self.num_entries_dirs as int == le16(d, 50)
        &&& self.num_entries_files as int == le16(d, 52)
        &&& self.num_entries_reg_hives as int == le16(d, 54)
        &&& self.num_entries_reg_keys as int == le16(d, 56)
        &&& self.num_entries_links as int == le16(d, 58)
        &&& self.offset_strings as int == le32(d, 60)
        &&& self.offset_dirs as int == le32(d, 64)
        &&& self.offset_files as int == le32(d, 68)
        &&& self.offset_reg_hives as int == le32(d, 72)
        &&& self.offset_reg_keys as int == le32(d, 76)
        &&& self.offset_links as int == le32(d, 80)
        &&& self.offset_app_name as int == le16(d, 84)
        &&& self.length_app_name as int == le16(d, 86)
        &&& self.offset_provider as int == le16(d, 88)
        &&& self.length_provider as int == le16(d, 90)
        &&& self.offset_unsupported as int == le16(d, 92)
        &&& self.length_unsupported as int == le16(d, 94)
        &&& self.unk_96 as int == le16(d, 96)
        &&& self.unk_98 as int == le16(d, 98)
    }

    /// Reads the header at the start of `d`, checking its tag first.
    pub fn read(d: &[u8]) -> (r: Result<Header, DecodeError>)
        ensures
            r is Ok <==> has_magic(d@) && d@.len() >= HEADER_LEN,
            r matches Ok(h) ==> h.decoded_from(d@),
            r == Err::<Header, _>(DecodeError::BadMagic) <==> d@.len() >= 4 && !has_magic(d@),
            r matches Err(e) ==> (e == DecodeError::BadMagic || e == DecodeError::Truncated),
    {
        if d.len() < 4 {
            return Err(DecodeError::Truncated);
        }
        if !(d[0] == 0x4d && d[1] == 0x53 && d[2] == 0x43 && d[3] == 0x45) {
            return Err(DecodeError::BadMagic);
        }
        if d.len() < HEADER_LEN {
            return Err(DecodeError::Truncated);
        }
        Ok(Header {
            unk_04: read_u32(d, 4)?,
            file_length: read_u32(d, 8)?,
            unk_12: read_u32(d, 12)?,
            unk_16: read_u32(d, 16)?,
            target_architecture: read_u32(d, 20)?,
            min_ce_version_major: read_u32(d, 24)?,
            min_ce_version_minor: read_u32(d, 28)?,
            max_ce_version_major: read_u32(d, 32)?,
            max_ce_version_minor: read_u32(d, 36)?,
            min_ce_build_number: read_u32(d, 40)?,
            max_ce_build_number: read_u32(d, 44)?,
            num_entries_strings: read_u16(d, 48)?,
            num_entries_dirs: read_u16(d, 50)?,
            num_entries_files: read_u16(d, 52)?,
            num_entries_reg_hives: read_u16(d, 54)?,
            num_entries_reg_keys: read_u16(d, 56)?,
            num_entries_links: read_u16(d, 58)?,
            offset_strings: read_u32(d, 60)?,
            offset_dirs: read_u32(d, 64)?,
            offset_files: read_u32(d, 68)?,
            offset_reg_hives: read_u32(d, 72)?,
            offset_reg_keys: read_u32(d, 76)?,
            offset_links: read_u32(d, 80)?,
            offset_app_name: read_u16(d, 84)?,
            length_app_name: read_u16(d, 86)?,
            offset_provider: read_u16(d, 88)?,
            length_provider: read_u16(d, 90)?,
            offset_unsupported: read_u16(d, 92)?,
            length_unsupported: read_u16(d, 94)?,
            unk_96: read_u16(d, 96)?,
            unk_98: read_u16(d, 98)?,
        })
    }
}

/// One record of the shared string table.
pub struct StringEntry {
    pub id: u16,
    pub length: u16,
    pub string: WinNullString,
}

impl Record for StringEntry {
    type Args = ();

    open spec fn fits(d: Seq<u8>, p: int) -> bool {
        p + 4 <= d.len() && text_fits(d, p + 4)
    }

    open spec fn end(d: Seq<u8>, p: int) -> int {
        <WinNullString as Record>::end(d, p + 4)
    }

    open spec fn decoded_from(&self, d: Seq<u8>, p: int, a: &()) -> bool {
        &&& self.id as int == le16(d, p)
        &&& self.length as int == le16(d, p + 2)
        &&& self.string.0@ == text_at(d, p + 4)
    }

    fn read_at(d: &[u8], p: usize, a: &()) -> (r: Result<(Self, usize), DecodeError>) {
        let id = read_u16(d, p)?;
        let length = read_u16(d, p + 2)?;
        let (string, e) = <WinNullString as Record>::read_at(d, p + 4, &())?;
        Ok((StringEntry { id, length, string }, e))
    }
}


/// The strings of `m` as text.
pub open spec fn texts(m: Map<u16, String>) -> Map<u16, Seq<char>> {
    m.map_values(|s: String| s@)
}

/// The shared string table stored from `p` on as `n` records: each id maps to
/// the text of its last record.
pub open spec fn strings_model(d: Seq<u8>, p: int, n: nat) -> Map<u16, Seq<char>>
    decreases n,
{
    if n == 0 {
        Map::empty()
    } else {
        let q = table_pos::<StringEntry>(d, p, (n - 1) as nat);
        strings_model(d, p, (n - 1) as nat).insert(le16(d, q) as u16, text_at(d, q + 4))
    }
}

/// The shared string table: id to text.
#[derive(Clone)]
pub struct SharedStrings(pub HashMap<u16, String>);

impl View for SharedStrings {
    type V = Map<u16, Seq<char>>;

    open spec fn view(&self) -> Map<u16, Seq<char>> {
        texts(self.0@)
    }
}

impl SharedStrings {
    /// Reads `count` string records from `p` on.
    pub fn read_options(d: &[u8], p: usize, count: usize) -> (r: Result<(SharedStrings, usize), DecodeError>)
        requires
            d@.len() + 0x10000 <= usize::MAX,
            p <= d@.len() + 0x10000,
        ensures
            r is Ok <==> table_fits::<StringEntry>(d@, p as int, count as nat),
            r matches Ok((s, e)) ==> {
                &&& s@ == strings_model(d@, p as int, count as nat)
                &&& e as int == table_pos::<StringEntry>(d@, p as int, count as nat)
                &&& e <= d@.len() + 0x10000
            },
            r matches Err(e) ==> e == DecodeError::Truncated,
    {
        let (entries, e) = read_table::<StringEntry>(d, p, count, &())?;
        let mut strings: HashMap<u16, String> = HashMap::new();
        let mut i: usize = 0;
        while i < entries.len()
            invariant
                i <= entries@.len() == count,
                table_decoded(entries@, d@, p as int, &()),
                texts(strings@) == strings_model(d@, p as int, i as nat),
            decreases entries@.len() - i,
        {
            let entry = &entries[i];
            proof { lemma_table_nth(entries@, d@, p as int, &(), i as int); }
            let ghost before = strings@;
            strings.insert(entry.id, entry.string.to_string());
            i = i + 1;
            assert(texts(strings@) =~= texts(before).insert(entry.id, entry.string.0@));
        }
        Ok((SharedStrings(strings), e))
    }
}

/// The text that the string ids `specs` resolve to: the texts of the ids that
/// `strings` holds, in order; an id it lacks adds nothing.
pub open spec fn resolve_specs(strings: Map<u16, Seq<char>>, specs: Seq<u16>) -> Seq<char>
    decreases specs.len(),
{
    if specs.len() == 0 {
        Seq::empty()
    } else {
        let last = specs.last();
        let head = resolve_specs(strings, specs.drop_last());
        if strings.contains_key(last) {
            head + strings[last]
        } else {
            head
        }
    }
}

/// A string id that the table lacks is skipped: resolving a spec list with it
/// gives what resolving the list without it gives.
pub proof fn lemma_resolve_skips_missing(strings: Map<u16, Seq<char>>, before: Seq<u16>, id: u16, after: Seq<u16>)
    requires
        !strings.contains_key(id),
    ensures
        resolve_specs(strings, before + seq![id] + after) == resolve_specs(strings, before + after),
    decreases after.len(),
{
    if after.len() == 0 {
        assert((before + seq![id] + after).drop_last() =~= before);
        assert(before + after =~= before);
    } else {
        let rest = after.drop_last();
        lemma_resolve_skips_missing(strings, before, id, rest);
        assert((before + seq![id] + after).drop_last() =~= before + seq![id] + rest);
        assert((before + after).drop_last() =~= before + rest);
    }
}

/// Concatenates the texts that `specs` name in `strings`.
pub fn resolve_path(strings: &SharedStrings, specs: &Vec<u16>) -> (r: String)
    ensures
        r@ == resolve_specs(strings@, specs@),
{
    let mut path = String::new();
    let mut i: usize = 0;
    while i < specs.len()
        invariant
            i <= specs@.len(),
            path@ == resolve_specs(strings@, specs@.subrange(0, i as int)),
        decreases specs@.len() - i,
    {
        assert(specs@.subrange(0, i + 1).drop_last() =~= specs@.subrange(0, i as int));
        match strings.0.get(&specs[i]) {
            Some(text) => {
                path.append(text.as_str());
            },
            None => {},
        }
        i = i + 1;
    }
    assert(specs@.subrange(0, i as int) =~= specs@);
    path
}

/// One record of the directory table, with its path resolved.
pub struct DirectoryEntry {
    pub id: u16,
    pub spec_length: u16,
    pub specs: Vec<u16>,
    pub path: String,
}

/// The string ids stored as `n` `u16` values from `p` on.
pub open spec fn ids_at(d: Seq<u8>, p: int, n: int) -> Seq<u16> {
    Seq::new(n as nat, |i: int| le16(d, p + 2 * i) as u16)
}

impl Record for DirectoryEntry {
    type Args = SharedStrings;

    open spec fn fits(d: Seq<u8>, p: int) -> bool {
        p + 4 <= d.len() && p + 4 + 2 * (le16(d, p + 2) / 2) <= d.len()
    }

    open spec fn end(d: Seq<u8>, p: int) -> int {
        p + 4 + 2 * (le16(d, p + 2) / 2)
    }

    open spec fn decoded_from(&self, d: Seq<u8>, p: int, a: &SharedStrings) -> bool {
        &&& self.id as int == le16(d, p)
        &&& self.spec_length as int == le16(d, p + 2)
        &&& self.specs@ == ids_at(d, p + 4, le16(d, p + 2) / 2)
        &&& self.path@ == resolve_specs(a@, self.specs@)
    }

    fn read_at(d: &[u8], p: usize, a: &SharedStrings) -> (r: Result<(Self, usize), DecodeError>) {
        let id = read_u16(d, p)?;
        let spec_length = read_u16(d, p + 2)?;
        let n = (spec_length / 2) as usize;
        let specs = read_u16s(d, p + 4, n)?;
        assert(specs@ =~= ids_at(d@, p + 4, le16(d@, p + 2) / 2));
        let path = resolve_path(a, &specs);
        Ok((DirectoryEntry { id, spec_length, specs, path }, p + 4 + 2 * n))
    }
}


/// The directory table stored from `p` on as `n` records, resolved against
/// `strings`: each id maps to the path of its last record.
pub open spec fn dirs_model(d: Seq<u8>, p: int, n: nat, strings: Map<u16, Seq<char>>) -> Map<u16, Seq<char>>
    decreases n,
{
    if n == 0 {
        Map::empty()
    } else {
        let q = table_pos::<DirectoryEntry>(d, p, (n - 1) as nat);
        dirs_model(d, p, (n - 1) as nat, strings).insert(
            le16(d, q) as u16,
            resolve_specs(strings, ids_at(d, q + 4, le16(d, q + 2) / 2)),
        )
    }
}

/// The directory table: id to resolved path.
#[derive(Clone)]
pub struct DirectoryEntries(pub HashMap<u16, String>);

impl View for DirectoryEntries {
    type V = Map<u16, Seq<char>>;

    open spec fn view(&self) -> Map<u16, Seq<char>> {
        texts(self.0@)
    }
}

impl DirectoryEntries {
    /// Reads `count` directory records from `p` on, resolving their paths
    /// against `strings`.
    pub fn read_options(d: &[u8], p: usize, count: usize, strings: &SharedStrings) -> (r: Result<(DirectoryEntries, usize), DecodeError>)
        requires
            d@.len() + 0x10000 <= usize::MAX,
            p <= d@.len() + 0x10000,
        ensures
            r is Ok <==> table_fits::<DirectoryEntry>(d@, p as int, count as nat),
            r matches Ok((s, e)) ==> {
                &&& s@ == dirs_model(d@, p as int, count as nat, strings@)
                &&& e as int == table_pos::<DirectoryEntry>(d@, p as int, count as nat)
                &&& e <= d@.len() + 0x10000
            },
            r matches Err(e) ==> e == DecodeError::Truncated,
    {
        let (entries, e) = read_table::<DirectoryEntry>(d, p, count, strings)?;
        let mut dirs: HashMap<u16, String> = HashMap::new();
        let mut i: usize = 0;
        while i < entries.len()
            invariant
                i <= entries@.len() == count,
                table_decoded(entries@, d@, p as int, strings),
                texts(dirs@) == dirs_model(d@, p as int, i as nat, strings@),
            decreases entries@.len() - i,
        {
            let entry = &entries[i];
            proof { lemma_table_nth(entries@, d@, p as int, strings, i as int); }
            let ghost before = dirs@;
            dirs.insert(entry.id, entry.path.clone());
            i = i + 1;
            assert(texts(dirs@) =~= texts(before).insert(entry.id, entry.path@));
        }
        Ok((DirectoryEntries(dirs), e))
    }
}

/// `name` placed under the directory `dir`, as a path is extended: a name
/// that starts at the root replaces the directory, and a separator is put
/// between the two where `dir` is not empty and does not end in one.
pub open spec fn join_path(dir: Seq<char>, name: Seq<char>) -> Seq<char> {
    if name.len() > 0 && name[0] == '/' {
        name
    } else if dir.len() == 0 {
        dir + name
    } else if dir.last() == '/' {
        dir + name
    } else {
        dir.push('/') + name
    }
}

/// Places `name` under the directory `dir`.
pub fn push_path(dir: &str, name: &str) -> (r: String)
    ensures
        r@ == join_path(dir@, name@),
{
    let name_len = name.unicode_len();
    if name_len > 0 && name.get_char(0) == '/' {
        return String::from_str(name);
    }
    let dir_len = dir.unicode_len();
    let mut path = String::from_str(dir);
    if dir_len > 0 && dir.get_char(dir_len - 1) != '/' {
        proof { reveal_strlit("/"); }
        path.append("/");
    }
    path.append(name);
    path
}

/// The path that directory `id` has in `dirs`, or the empty path where there
/// is no such directory.
pub open spec fn dir_path(dirs: Map<u16, Seq<char>>, id: u16) -> Seq<char> {
    if dirs.contains_key(id) {
        dirs[id]
    } else {
        Seq::empty()
    }
}

/// One record of the file table, with its destination path resolved.
pub struct FileEntry {
    pub id: u16,
    pub directory_id: u16,
    pub extension_id: u16,
    pub flags: u32,
    pub name_length: u16,
    pub name: WinNullString,
    pub file_path: String,
}

impl Record for FileEntry {
    type Args = DirectoryEntries;

    open spec fn fits(d: Seq<u8>, p: int) -> bool {
        p + 12 <= d.len() && text_fits(d, p + 12)
    }

    open spec fn end(d: Seq<u8>, p: int) -> int {
        padded_end(d, p + 12, le16(d, p + 10))
    }

    open spec fn decoded_from(&self, d: Seq<u8>, p: int, a: &DirectoryEntries) -> bool {
        &&& self.id as int == le16(d, p)
        &&& self.directory_id as int == le16(d, p + 2)
        &&& self.extension_id as int == le16(d, p + 4)
        &&& self.flags as int == le32(d, p + 6)
        &&& self.name_length as int == le16(d, p + 10)
        &&& self.name.0@ == text_at(d, p + 12)
        &&& self.file_path@ == join_path(dir_path(a@, self.directory_id), self.name.0@)
    }

    fn read_at(d: &[u8], p: usize, a: &DirectoryEntries) -> (r: Result<(Self, usize), DecodeError>) {
        let id = read_u16(d, p)?;
        let directory_id = read_u16(d, p + 2)?;
        let extension_id = read_u16(d, p + 4)?;
        let flags = read_u32(d, p + 6)?;
        let name_length = read_u16(d, p + 10)?;
        let (name, e) = WinNullString::read_padded(d, p + 12, name_length)?;
        let file_path = match a.0.get(&directory_id) {
            Some(dir) => push_path(dir.as_str(), name.0.as_str()),
            None => {
                proof { reveal_strlit(""); }
                push_path("", name.0.as_str())
            },
        };
        Ok((FileEntry { id, directory_id, extension_id, flags, name_length, name, file_path }, e))
    }
}

/// One record of the registry hive table.
pub struct RegHiveEntry {
    pub id: u16,
    pub root: u16,
    pub unk_04: u16,
    pub spec_length: u16,
    pub specs: Vec<u16>,
}

impl Record for RegHiveEntry {
    type Args = ();

    open spec fn fits(d: Seq<u8>, p: int) -> bool {
        p + 8 <= d.len() && p + 8 + 2 * (le16(d, p + 6) / 2) <= d.len()
    }

    open spec fn end(d: Seq<u8>, p: int) -> int {
        p + 8 + 2 * (le16(d, p + 6) / 2)
    }

    open spec fn decoded_from(&self, d: Seq<u8>, p: int, a: &()) -> bool {
        &&& self.id as int == le16(d, p)
        &&& self.root as int == le16(d, p + 2)
        &&& self.unk_04 as int == le16(d, p + 4)
        &&& self.spec_length as int == le16(d, p + 6)
        &&& self.specs@ == ids_at(d, p + 8, le16(d, p + 6) / 2)
    }

    fn read_at(d: &[u8], p: usize, a: &()) -> (r: Result<(Self, usize), DecodeError>) {
        let id = read_u16(d, p)?;
        let root = read_u16(d, p + 2)?;
        let unk_04 = read_u16(d, p + 4)?;
        let spec_length = read_u16(d, p + 6)?;
        let n = (spec_length / 2) as usize;
        let specs = read_u16s(d, p + 8, n)?;
        assert(specs@ =~= ids_at(d@, p + 8, le16(d@, p + 6) / 2));
        Ok((RegHiveEntry { id, root, unk_04, spec_length, specs }, p + 8 + 2 * n))
    }
}

/// One record of the registry key table.
pub struct RegKeyEntry {
    pub id: u16,
    pub hive_id: u16,
    pub variable_substitution: u16,
    pub flags: u32,
    pub data_length: u16,
    pub data: Vec<u8>,
}

impl Record for RegKeyEntry {
    type Args = ();

    open spec fn fits(d: Seq<u8>, p: int) -> bool {
        p + 12 <= d.len() && p + 12 + le16(d, p + 10) <= d.len()
    }

    open spec fn end(d: Seq<u8>, p: int) -> int {
        p + 12 + le16(d, p + 10)
    }

    open spec fn decoded_from(&self, d: Seq<u8>, p: int, a: &()) -> bool {
        &&& self.id as int == le16(d, p)
        &&& self.hive_id as int == le16(d, p + 2)
        &&& self.variable_substitution as int == le16(d, p + 4)
        &&& self.flags as int == le32(d, p + 6)
        &&& self.data_length as int == le16(d, p + 10)
        &&& self.data@ == d.subrange(p + 12, p + 12 + le16(d, p + 10))
    }

    fn read_at(d: &[u8], p: usize, a: &()) -> (r: Result<(Self, usize), DecodeError>) {
        let id = read_u16(d, p)?;
        let hive_id = read_u16(d, p + 2)?;
        let variable_substitution = read_u16(d, p + 4)?;
        let flags = read_u32(d, p + 6)?;
        let data_length = read_u16(d, p + 10)?;
        let data = read_bytes(d, p + 12, data_length as usize)?;
        Ok((RegKeyEntry { id, hive_id, variable_substitution, flags, data_length, data }, p + 12 + data_length as usize))
    }
}

/// One record of the shortcut table.
pub struct LinkEntry {
    pub id: u16,
    pub unk_02: u16,
    pub base_diretory: u16,
    pub target_id: u16,
    pub link_type: u16,
    pub spec_length: u16,
    pub specs: Vec<u16>,
}

impl Record for LinkEntry {
    type Args = ();

    open spec fn fits(d: Seq<u8>, p: int) -> bool {
        p + 12 <= d.len() && p + 12 + 2 * (le16(d, p + 10) / 2) <= d.len()
    }

    open spec fn end(d: Seq<u8>, p: int) -> int {
        p + 12 + 2 * (le16(d, p + 10) / 2)
    }

    open spec fn decoded_from(&self, d: Seq<u8>, p: int, a: &()) -> bool {
        &&& self.id as int == le16(d, p)
        &&& self.unk_02 as int == le16(d, p + 2)
        &&& self.base_diretory as int == le16(d, p + 4)
        &&& self.target_id as int == le16(d, p + 6)
        &&& self.link_type as int == le16(d, p + 8)
        &&& self.spec_length as int == le16(d, p + 10)
        &&& self.specs@ == ids_at(d, p + 12, le16(d, p + 10) / 2)
    }

    fn read_at(d: &[u8], p: usize, a: &()) -> (r: Result<(Self, usize), DecodeError>) {
        let id = read_u16(d, p)?;
        let unk_02 = read_u16(d, p + 2)?;
        let base_diretory = read_u16(d, p + 4)?;
        let target_id = read_u16(d, p + 6)?;
        let link_type = read_u16(d, p + 8)?;
        let spec_length = read_u16(d, p + 10)?;
        let n = (spec_length / 2) as usize;
        let specs = read_u16s(d, p + 12, n)?;
        assert(specs@ =~= ids_at(d@, p + 12, le16(d@, p + 10) / 2));
        Ok((LinkEntry { id, unk_02, base_diretory, target_id, link_type, spec_length, specs }, p + 12 + 2 * n))
    }
}


/// The decimal digit for `n`, which is below ten.
pub open spec fn digit(n: int) -> char {
    ((n + 48) as u8) as char
}

/// The redirect key of an extension id: its decimal digits, padded with
/// leading zeros to at least three.
pub open spec fn extension_key(id: u16) -> Seq<char> {
    let n = id as int;
    if n < 1000 {
        seq![digit(n / 100), digit(n / 10 % 10), digit(n % 10)]
    } else if n < 10000 {
        seq![digit(n / 1000), digit(n / 100 % 10), digit(n / 10 % 10), digit(n % 10)]
    } else {
        seq![digit(n / 10000), digit(n / 1000 % 10), digit(n / 100 % 10), digit(n / 10 % 10), digit(n % 10)]
    }
}

/// Whether `c` is a decimal digit.
pub open spec fn is_digit(c: char) -> bool {
    '0' <= c && c <= '9'
}

/// The number that the decimal digits `s` write.
pub open spec fn decimal_value(s: Seq<char>) -> int
    decreases s.len(),
{
    if s.len() == 0 {
        0
    } else {
        10 * decimal_value(s.drop_last()) + (s.last() as int - 48)
    }
}

/// The redirect key of an extension id below a thousand is exactly three
/// decimal digits, with leading zeros, that write the id.
pub proof fn lemma_extension_key_three_digits(id: u16)
    requires
        id < 1000,
    ensures
        extension_key(id).len() == 3,
        forall|i: int| 0 <= i < 3 ==> is_digit(#[trigger] extension_key(id)[i]),
        decimal_value(extension_key(id)) == id,
{
    let k = extension_key(id);
    let n = id as int;
    assert(k.drop_last().drop_last().drop_last() =~= Seq::<char>::empty());
    assert(k.drop_last().drop_last().last() == digit(n / 100));
    assert(k.drop_last().last() == digit(n / 10 % 10));
    assert(k.last() == digit(n % 10));
    assert(n == 100 * (n / 100) + 10 * (n / 10 % 10) + n % 10);
    lemma_digit_value(n / 100);
    lemma_digit_value(n / 10 % 10);
    lemma_digit_value(n % 10);
    assert(decimal_value(k.drop_last().drop_last().drop_last()) == 0);
    assert(decimal_value(k.drop_last().drop_last()) == n / 100);
    assert(decimal_value(k.drop_last()) == 10 * (n / 100) + n / 10 % 10);
}

/// Every redirect key writes its extension id in decimal digits.
proof fn lemma_extension_key_value(id: u16)
    ensures
        decimal_value(extension_key(id)) == id,
{
    let k = extension_key(id);
    let n = id as int;
    lemma_digit_value(n % 10);
    lemma_digit_value(n / 10 % 10);
    lemma_digit_value(n / 100 % 10);
    if n < 1000 {
        lemma_extension_key_three_digits(id);
    } else if n < 10000 {
        lemma_digit_value(n / 1000);
        assert(k.subrange(0, 0) =~= Seq::<char>::empty());
        assert(k.subrange(0, 1).drop_last() =~= k.subrange(0, 0));
        assert(k.subrange(0, 2).drop_last() =~= k.subrange(0, 1));
        assert(k.subrange(0, 3).drop_last() =~= k.subrange(0, 2));
        assert(k.drop_last() =~= k.subrange(0, 3));
        assert(decimal_value(k.subrange(0, 0)) == 0);
        assert(k.subrange(0, 1).last() == digit(n / 1000));
        assert(decimal_value(k.subrange(0, 1)) == n / 1000);
        assert(decimal_value(k.subrange(0, 2)) == 10 * (n / 1000) + n / 100 % 10);
        assert(decimal_value(k.subrange(0, 3)) == 100 * (n / 1000) + 10 * (n / 100 % 10) + n / 10 % 10);
        assert(n == 1000 * (n / 1000) + 100 * (n / 100 % 10) + 10 * (n / 10 % 10) + n % 10);
    } else {
        lemma_digit_value(n / 10000);
        lemma_digit_value(n / 1000 % 10);
        assert(k.subrange(0, 0) =~= Seq::<char>::empty());
        assert(k.subrange(0, 1).drop_last() =~= k.subrange(0, 0));
        assert(k.subrange(0, 2).drop_last() =~= k.subrange(0, 1));
        assert(k.subrange(0, 3).drop_last() =~= k.subrange(0, 2));
        assert(k.subrange(0, 4).drop_last() =~= k.subrange(0, 3));
        assert(k.drop_last() =~= k.subrange(0, 4));
        assert(decimal_value(k.subrange(0, 0)) == 0);
        assert(k.subrange(0, 1).last() == digit(n / 10000));
        assert(decimal_value(k.subrange(0, 1)) == n / 10000);
        assert(decimal_value(k.subrange(0, 2)) == 10 * (n / 10000) + n / 1000 % 10);
        assert(decimal_value(k.subrange(0, 3)) == 100 * (n / 10000) + 10 * (n / 1000 % 10) + n / 100 % 10);
        assert(decimal_value(k.subrange(0, 4)) == 1000 * (n / 10000) + 100 * (n / 1000 % 10) + 10 * (n / 100 % 10) + n / 10 % 10);
        assert(n == 10000 * (n / 10000) + 1000 * (n / 1000 % 10) + 100 * (n / 100 % 10) + 10 * (n / 10 % 10) + n % 10);
    }
}

/// Where several files share an extension id, the redirect map sends that
/// id's key to the path of the last of them.
pub proof fn lemma_redirect_last_wins(files: Seq<FileEntry>, i: int)
    requires
        0 <= i < files.len(),
        forall|j: int| i < j < files.len() ==> #[trigger] files[j].extension_id != files[i].extension_id,
    ensures
        redirect_lookup(redirect_entries(files), extension_key(files[i].extension_id)) == Some(files[i].file_path@),
    decreases files.len(),
{
    let es = redirect_entries(files);
    let k = extension_key(files[i].extension_id);
    if i == files.len() - 1 {
        assert(es.last().0 == k);
    } else {
        let last = files.last();
        lemma_extension_key_value(last.extension_id);
        lemma_extension_key_value(files[i].extension_id);
        assert(files[files.len() - 1].extension_id != files[i].extension_id);
        assert(es.last().0 != k);
        assert(es.drop_last() =~= redirect_entries(files.drop_last()));
        assert forall|j: int| i < j < files.drop_last().len() implies #[trigger] files.drop_last()[j].extension_id
            != files.drop_last()[i].extension_id by {
            assert(files.drop_last()[j] == files[j]);
        }
        lemma_redirect_last_wins(files.drop_last(), i);
    }
}

proof fn lemma_digit_value(x: int)
    requires
        0 <= x < 10,
    ensures
        digit(x) as int == x + 48,
        is_digit(digit(x)),
{
}

fn digit_char(n: u16) -> (c: char)
    requires
        n < 10,
    ensures
        c == digit(n as int),
{
    ((n + 48) as u8) as char
}

/// Formats an extension id as its redirect key.
pub fn format_extension_key(id: u16) -> (r: String)
    ensures
        r@ == extension_key(id),
{
    let mut key = String::new();
    if id >= 10000 {
        push_char(&mut key, digit_char(id / 10000));
    }
    if id >= 1000 {
        push_char(&mut key, digit_char(id / 1000 % 10));
    }
    push_char(&mut key, digit_char(id / 100 % 10));
    push_char(&mut key, digit_char(id / 10 % 10));
    push_char(&mut key, digit_char(id % 10));
    assert(key@ =~= extension_key(id));
    key
}

/// The redirect entry of each file: its extension key and its path.
pub open spec fn redirect_entries(files: Seq<FileEntry>) -> Seq<(Seq<char>, Seq<char>)> {
    Seq::new(files.len(), |i: int| (extension_key(files[i].extension_id), files[i].file_path@))
}

/// The path that `entries` give the key `k`: that of the last entry with that
/// key.
pub open spec fn redirect_lookup(entries: Seq<(Seq<char>, Seq<char>)>, k: Seq<char>) -> Option<Seq<char>>
    decreases entries.len(),
{
    if entries.len() == 0 {
        None
    } else if entries.last().0 == k {
        Some(entries.last().1)
    } else {
        redirect_lookup(entries.drop_last(), k)
    }
}

/// The extension redirect map: from the three-digit extension of a cabinet
/// member to where it is installed. Where several files share an extension,
/// the last one counts.
pub struct RedirectMap {
    pub entries: Vec<(String, String)>,
}

impl View for RedirectMap {
    type V = Seq<(Seq<char>, Seq<char>)>;

    open spec fn view(&self) -> Seq<(Seq<char>, Seq<char>)> {
        self.entries@.map_values(|e: (String, String)| (e.0@, e.1@))
    }
}

impl RedirectMap {
    /// The redirect map of a file table.
    pub fn from_files(files: &Vec<FileEntry>) -> (r: RedirectMap)
        ensures
            r@ == redirect_entries(files@),
    {
        let mut entries: Vec<(String, String)> = Vec::new();
        let mut i: usize = 0;
        while i < files.len()
            invariant
                i <= files@.len(),
                entries@.len() == i,
                forall|j: int| 0 <= j < i ==> {
                    &&& (#[trigger] entries@[j]).0@ == extension_key(files@[j].extension_id)
                    &&& entries@[j].1@ == files@[j].file_path@
                },
            decreases files@.len() - i,
        {
            let key = format_extension_key(files[i].extension_id);
            let path = files[i].file_path.clone();
            entries.push((key, path));
            i = i + 1;
        }
        let r = RedirectMap { entries };
        assert(r@ =~= redirect_entries(files@));
        r
    }

    /// The destination recorded for the extension `ext`.
    pub fn get(&self, ext: &String) -> (r: Option<String>)
        ensures
            r matches Some(s) ==> redirect_lookup(self@, ext@) == Some(s@),
            r is None ==> redirect_lookup(self@, ext@) is None,
    {
        let mut i = self.entries.len();
        assert(self@.subrange(0, i as int) =~= self@);
        while i > 0
            invariant
                i <= self.entries@.len(),
                redirect_lookup(self@, ext@) == redirect_lookup(self@.subrange(0, i as int), ext@),
            decreases i,
        {
            assert(self@.subrange(0, i - 1) =~= self@.subrange(0, i as int).drop_last());
            if self.entries[i - 1].0 == *ext {
                return Some(self.entries[i - 1].1.clone());
            }
            i = i - 1;
        }
        None
    }
}


/// Where the provider text starts.
pub open spec fn provider_pos(d: Seq<u8>) -> int {
    padded_end(d, HEADER_LEN as int, le16(d, 86))
}

/// Where the unsupported-platform notice starts.
pub open spec fn unsupported_pos(d: Seq<u8>) -> int {
    padded_end(d, provider_pos(d), le16(d, 90))
}

/// Where the shared string table starts.
pub open spec fn strings_pos(d: Seq<u8>) -> int {
    padded_end(d, unsupported_pos(d), le16(d, 94))
}

/// Where the directory table starts.
pub open spec fn dirs_pos(d: Seq<u8>) -> int {
    table_pos::<StringEntry>(d, strings_pos(d), le16(d, 48) as nat)
}

/// Where the file table starts.
pub open spec fn files_pos(d: Seq<u8>) -> int {
    table_pos::<DirectoryEntry>(d, dirs_pos(d), le16(d, 50) as nat)
}

/// Where the registry hive table starts.
pub open spec fn hives_pos(d: Seq<u8>) -> int {
    table_pos::<FileEntry>(d, files_pos(d), le16(d, 52) as nat)
}

/// Where the registry key table starts.
pub open spec fn keys_pos(d: Seq<u8>) -> int {
    table_pos::<RegHiveEntry>(d, hives_pos(d), le16(d, 54) as nat)
}

/// Where the shortcut table starts.
pub open spec fn links_pos(d: Seq<u8>) -> int {
    table_pos::<RegKeyEntry>(d, keys_pos(d), le16(d, 56) as nat)
}

/// Whether `d` holds a whole manifest: the header, its three texts and its six
/// tables, read in that order.
pub open spec fn manifest_fits(d: Seq<u8>) -> bool {
    &&& has_magic(d)
    &&& d.len() >= HEADER_LEN
    &&& text_fits(d, HEADER_LEN as int)
    &&& text_fits(d, provider_pos(d))
    &&& text_fits(d, unsupported_pos(d))
    &&& table_fits::<StringEntry>(d, strings_pos(d), le16(d, 48) as nat)
    &&& table_fits::<DirectoryEntry>(d, dirs_pos(d), le16(d, 50) as nat)
    &&& table_fits::<FileEntry>(d, files_pos(d), le16(d, 52) as nat)
    &&& table_fits::<RegHiveEntry>(d, hives_pos(d), le16(d, 54) as nat)
    &&& table_fits::<RegKeyEntry>(d, keys_pos(d), le16(d, 56) as nat)
    &&& table_fits::<LinkEntry>(d, links_pos(d), le16(d, 58) as nat)
}

/// A decoded manifest.
pub struct MSCE000 {
    pub header: Header,
    pub app_name: WinNullString,
    pub provider: WinNullString,
    pub unsupported: WinNullString,
    pub strings: SharedStrings,
    pub directories: DirectoryEntries,
    pub files: Vec<FileEntry>,
    pub reg_hives: Vec<RegHiveEntry>,
    pub reg_keys: Vec<RegKeyEntry>,
    pub links: Vec<LinkEntry>,
    pub file_mapping: RedirectMap,
}

impl MSCE000 {
    /// Whether `self` is the manifest that `d` holds.
    pub open spec fn decoded_from(&self, d: Seq<u8>) -> bool {
        &&& self.header.decoded_from(d)
        &&& self.app_name.0@ == text_at(d, HEADER_LEN as int)
        &&& self.provider.0@ == text_at(d, provider_pos(d))
        &&& self.unsupported.0@ == text_at(d, unsupported_pos(d))
        &&& self.strings@ == strings_model(d, strings_pos(d), le16(d, 48) as nat)
        &&& self.directories@ == dirs_model(d, dirs_pos(d), le16(d, 50) as nat, self.strings@)
        &&& self.files@.len() == le16(d, 52)
        &&& table_decoded(self.files@, d, files_pos(d), &self.directories)
        &&& self.reg_hives@.len() == le16(d, 54)
        &&& table_decoded(self.reg_hives@, d, hives_pos(d), &())
        &&& self.reg_keys@.len() == le16(d, 56)
        &&& table_decoded(self.reg_keys@, d, keys_pos(d), &())
        &&& self.links@.len() == le16(d, 58)
        &&& table_decoded(self.links@, d, links_pos(d), &())
        &&& self.file_mapping@ == redirect_entries(self.files@)
    }

    /// Decodes the manifest that `d` holds. Fails with `BadMagic` when the
    /// leading tag is wrong, before anything else is read, and with
    /// `Truncated` when a read runs past the end or a text is unterminated.
    pub fn read(d: &[u8]) -> (r: Result<MSCE000, DecodeError>)
        requires
            d@.len() + 0x10000 <= usize::MAX,
        ensures
            r is Ok <==> manifest_fits(d@),
            r matches Ok(m) ==> m.decoded_from(d@),
            r == Err::<MSCE000, _>(DecodeError::BadMagic) <==> d@.len() >= 4 && !has_magic(d@),
            r matches Err(e) ==> (e == DecodeError::BadMagic || e == DecodeError::Truncated),
    {
        let header = Header::read(d)?;
        let (app_name, p) = WinNullString::read_padded(d, HEADER_LEN, header.length_app_name)?;
        let (provider, p) = WinNullString::read_padded(d, p, header.length_provider)?;
        let (unsupported, p) = WinNullString::read_padded(d, p, header.length_unsupported)?;
        let (strings, p) = SharedStrings::read_options(d, p, header.num_entries_strings as usize)?;
        let (directories, p) = DirectoryEntries::read_options(d, p, header.num_entries_dirs as usize, &strings)?;
        let (files, p) = read_table::<FileEntry>(d, p, header.num_entries_files as usize, &directories)?;
        let (reg_hives, p) = read_table::<RegHiveEntry>(d, p, header.num_entries_reg_hives as usize, &())?;
        let (reg_keys, p) = read_table::<RegKeyEntry>(d, p, header.num_entries_reg_keys as usize, &())?;
        let (links, _) = read_table::<LinkEntry>(d, p, header.num_entries_links as usize, &())?;
        let file_mapping = RedirectMap::from_files(&files);
        Ok(MSCE000 {
            header,
            app_name,
            provider,
            unsupported,
            strings,
            directories,
            files,
            reg_hives,
            reg_keys,
            links,
            file_mapping,
        })
    }
}

} // verus!
