//! Planning where each cabinet member is extracted to, from the cabinet's
//! listing and a decoded manifest's redirect map.
use vstd::prelude::*;

use crate::msce_000::{redirect_lookup, RedirectMap};
use crate::strings::push_char;
use vstd::string::{StrSliceExecFns, StringExecFns};

verus! {

/// The characters of `s`.
pub fn chars_of(s: &str) -> (r: Vec<char>)
    ensures
        r@ == s@,
{
    let n = s.unicode_len();
    let mut v: Vec<char> = Vec::new();
    let mut i: usize = 0;
    while i < n
        invariant
            i <= n == s@.len(),
            v@ == s@.subrange(0, i as int),
        decreases n - i,
    {
        v.push(s.get_char(i));
        i = i + 1;
        assert(v@ =~= s@.subrange(0, i as int));
    }
    assert(v@ =~= s@);
    v
}

/// The text made of the characters `v[from..to]`.
pub fn string_of(v: &[char], from: usize, to: usize) -> (r: String)
    requires
        from <= to <= v@.len(),
    ensures
        r@ == v@.subrange(from as int, to as int),
{
    let mut s = String::new();
    let mut i = from;
    while i < to
        invariant
            from <= i <= to <= v@.len(),
            s@ == v@.subrange(from as int, i as int),
        decreases to - i,
    {
        push_char(&mut s, v[i]);
        i = i + 1;
        assert(s@ =~= v@.subrange(from as int, i as int));
    }
    s
}

/// The index of the last `c` in `s`, or -1 where there is none.
pub open spec fn last_index_of(s: Seq<char>, c: char) -> int
    decreases s.len(),
{
    if s.len() == 0 {
        -1
    } else if s.last() == c {
        s.len() - 1
    } else {
        last_index_of(s.drop_last(), c)
    }
}

proof fn lemma_last_index_bounds(s: Seq<char>, c: char)
    ensures
        -1 <= last_index_of(s, c) < s.len(),
        last_index_of(s, c) >= 0 ==> s[last_index_of(s, c)] == c,
    decreases s.len(),
{
    if s.len() > 0 && s.last() != c {
        lemma_last_index_bounds(s.drop_last(), c);
    }
}

/// Finds the last `c` in `v[from..]`, as an index into `v`.
fn find_last(v: &Vec<char>, from: usize, c: char) -> (r: Option<usize>)
    requires
        from <= v@.len(),
    ensures
        match r {
            Some(i) => from <= i < v@.len() && i as int == from + last_index_of(
                v@.subrange(from as int, v@.len() as int),
                c,
            ),
            None => last_index_of(v@.subrange(from as int, v@.len() as int), c) == -1,
        },
{
    let mut i = v.len();
    assert(v@.subrange(from as int, i as int) =~= v@.subrange(from as int, v@.len() as int));
    while i > from
        invariant
            from <= i <= v@.len(),
            last_index_of(v@.subrange(from as int, v@.len() as int), c)
                == last_index_of(v@.subrange(from as int, i as int), c),
        decreases i,
    {
        assert(v@.subrange(from as int, i - 1) =~= v@.subrange(from as int, i as int).drop_last());
        if v[i - 1] == c {
            assert(last_index_of(v@.subrange(from as int, i as int), c) == i - 1 - from);
            return Some(i - 1);
        }
        i = i - 1;
    }
    None
}

/// The last component of a member name: what follows its last `/`.
pub open spec fn file_name(s: Seq<char>) -> Seq<char> {
    s.subrange(last_index_of(s, '/') + 1, s.len() as int)
}

/// The extension of a member name: what follows the last dot of its last
/// component. A component without a dot, or whose only dot leads it, or
/// that is `..`, has none.
pub open spec fn name_extension(s: Seq<char>) -> Option<Seq<char>> {
    let f = file_name(s);
    let dot = last_index_of(f, '.');
    if dot <= 0 || f == seq!['.', '.'] {
        None
    } else {
        Some(f.subrange(dot + 1, f.len() as int))
    }
}

/// The extension of the member name `name`.
pub fn extension(name: &str) -> (r: Option<String>)
    ensures
        match r {
            Some(e) => name_extension(name@) == Some(e@),
            None => name_extension(name@) is None,
        },
{
    let v = chars_of(name);
    let vlen = v.len();
    proof { lemma_last_index_bounds(v@, '/'); }
    assert(v@.subrange(0, v@.len() as int) =~= v@);
    let start = match find_last(&v, 0, '/') {
        Some(i) => i + 1,
        None => 0,
    };
    let ghost f = file_name(name@);
    assert(f =~= v@.subrange(start as int, v@.len() as int));
    proof { lemma_last_index_bounds(f, '.'); }
    match find_last(&v, start, '.') {
        Some(dot) => {
            if dot == start || (v.len() - start == 2 && v[start] == '.' && v[start + 1] == '.') {
                proof {
                    if dot != start {
                        assert(f =~= seq!['.', '.']);
                    }
                }
                None
            } else {
                assert(f != seq!['.', '.']) by {
                    if f == seq!['.', '.'] {
                        assert(f.len() == 2 && f[0] == '.' && f[1] == '.');
                    }
                }
                let e = string_of(&v, dot + 1, v.len());
                assert(last_index_of(f, '.') == dot - start);
                assert(e@ =~= f.subrange(dot - start + 1, f.len() as int));
                assert(name_extension(name@) == Some(f.subrange(dot - start + 1, f.len() as int)));
                Some(e)
            }
        },
        None => None,
    }
}


/// Whether `t` occurs in `s` at `i`.
pub open spec fn occurs_at(s: Seq<char>, i: int, t: Seq<char>) -> bool {
    0 <= i && i + t.len() <= s.len() && s.subrange(i, i + t.len()) == t
}

/// Whether `t` occurs anywhere in `s`.
pub open spec fn occurs_in(t: Seq<char>, s: Seq<char>) -> bool {
    exists|i: int| #[trigger] occurs_at(s, i, t)
}

/// `s` with every occurrence of `from` replaced by `to`, scanning from the
/// left and never overlapping two occurrences.
pub open spec fn replace_all(s: Seq<char>, from: Seq<char>, to: Seq<char>) -> Seq<char>
    decreases s.len(),
{
    if s.len() == 0 || from.len() == 0 {
        s
    } else if occurs_at(s, 0, from) {
        to + replace_all(s.subrange(from.len() as int, s.len() as int), from, to)
    } else {
        seq![s[0]] + replace_all(s.drop_first(), from, to)
    }
}

/// Whether `t` occurs in `s` at `i`.
fn matches_at(s: &Vec<char>, i: usize, t: &Vec<char>) -> (r: bool)
    requires
        i <= s@.len(),
    ensures
        r == occurs_at(s@, i as int, t@),
{
    let slen = s.len();
    if slen - i < t.len() {
        return false;
    }
    let mut k: usize = 0;
    while k < t.len()
        invariant
            slen == s@.len(),
            k <= t@.len(),
            i + t@.len() <= s@.len(),
            forall|j: int| 0 <= j < k ==> s@[i + j] == t@[j],
        decreases t@.len() - k,
    {
        if s[i + k] != t[k] {
            assert(s@.subrange(i as int, i + t@.len())[k as int] != t@[k as int]);
            return false;
        }
        k = k + 1;
    }
    assert(s@.subrange(i as int, i + t@.len()) =~= t@);
    true
}

/// Replaces every occurrence of `from` in `s` by `to`.
fn replace_chars(s: &Vec<char>, from: &Vec<char>, to: &Vec<char>) -> (r: Vec<char>)
    ensures
        r@ == replace_all(s@, from@, to@),
{
    if from.len() == 0 {
        return s.clone();
    }
    let mut out: Vec<char> = Vec::new();
    let mut i: usize = 0;
    assert(s@.subrange(0, s@.len() as int) =~= s@);
    assert(out@ + s@ =~= s@);
    while i < s.len()
        invariant
            i <= s@.len(),
            from@.len() > 0,
            out@ + replace_all(s@.subrange(i as int, s@.len() as int), from@, to@) == replace_all(s@, from@, to@),
        decreases s@.len() - i,
    {
        let ghost rest = s@.subrange(i as int, s@.len() as int);
        if matches_at(s, i, from) {
            assert(rest.subrange(0, from@.len() as int) =~= s@.subrange(i as int, i + from@.len()));
            assert(rest.subrange(from@.len() as int, rest.len() as int) =~= s@.subrange(i + from@.len(), s@.len() as int));
            let mut k: usize = 0;
            let ghost out0 = out@;
            while k < to.len()
                invariant
                    k <= to@.len(),
                    out@ == out0 + to@.subrange(0, k as int),
                decreases to@.len() - k,
            {
                out.push(to[k]);
                k = k + 1;
                assert(out@ =~= out0 + to@.subrange(0, k as int));
            }
            assert(to@.subrange(0, k as int) =~= to@);
            assert(out@ + replace_all(s@.subrange(i + from@.len(), s@.len() as int), from@, to@)
                =~= out0 + replace_all(rest, from@, to@));
            i = i + from.len();
        } else {
            proof {
                if occurs_at(rest, 0, from@) {
                    assert(rest.subrange(0, from@.len() as int) =~= s@.subrange(i as int, i + from@.len()));
                }
            }
            assert(rest.drop_first() =~= s@.subrange(i + 1, s@.len() as int));
            let ghost out0 = out@;
            out.push(s[i]);
            assert(out@ + replace_all(rest.drop_first(), from@, to@) =~= out0 + replace_all(rest, from@, to@));
            i = i + 1;
        }
    }
    assert(s@.subrange(i as int, s@.len() as int) =~= Seq::<char>::empty());
    assert(out@ =~= out@ + replace_all(Seq::<char>::empty(), from@, to@));
    out
}

/// The root placeholders and the directories they stand for, in the order
/// in which they are expanded.
pub open spec fn ce_dir_table() -> Seq<(Seq<char>, Seq<char>)> {
    seq![
        ("%CE1%"@, "Program Files"@),
        ("%CE2%"@, "Windows"@),
        ("%CE3%"@, "Windows\\Desktop"@),
        ("%CE4%"@, "Windows\\StartUp"@),
        ("%CE5%"@, "My Documents"@),
        ("%CE6%"@, "Program Files\\Accessories"@),
        ("%CE7%"@, "Program Files\\Communications"@),
        ("%CE8%"@, "Program Files\\Games"@),
        ("%CE9%"@, "Program Files\\Pocket Outlook"@),
        ("%CE10%"@, "Program Files\\Office"@),
        ("%CE11%"@, "Windows\\Programs"@),
        ("%CE12%"@, "Windows\\Programs\\Accessories"@),
        ("%CE13%"@, "Windows\\Programs\\Communications"@),
        ("%CE14%"@, "Windows\\Programs\\Games"@),
        ("%CE15%"@, "Windows\\Fonts"@),
        ("%CE16%"@, "Windows\\Recent"@),
        ("%CE17%"@, "Windows\\Favorites"@),
    ]
}

/// `s` with the placeholders of `t[0]`, then `t[1]`, and so on, replaced.
pub open spec fn expand_with(t: Seq<(Seq<char>, Seq<char>)>, s: Seq<char>) -> Seq<char>
    decreases t.len(),
{
    if t.len() == 0 {
        s
    } else {
        replace_all(expand_with(t.drop_last(), s), t.last().0, t.last().1)
    }
}

/// `s` with every root placeholder replaced by its directory.
pub open spec fn expand_ce(s: Seq<char>) -> Seq<char> {
    expand_with(ce_dir_table(), s)
}

fn ce_dirs() -> (r: Vec<(&'static str, &'static str)>)
    ensures
        r@.len() == ce_dir_table().len(),
        forall|k: int| 0 <= k < r@.len() ==> (#[trigger] r@[k]).0@ == ce_dir_table()[k].0 && r@[k].1@ == ce_dir_table()[k].1,
{
    let r = vec![
        ("%CE1%", "Program Files"),
        ("%CE2%", "Windows"),
        ("%CE3%", "Windows\\Desktop"),
        ("%CE4%", "Windows\\StartUp"),
        ("%CE5%", "My Documents"),
        ("%CE6%", "Program Files\\Accessories"),
        ("%CE7%", "Program Files\\Communications"),
        ("%CE8%", "Program Files\\Games"),
        ("%CE9%", "Program Files\\Pocket Outlook"),
        ("%CE10%", "Program Files\\Office"),
        ("%CE11%", "Windows\\Programs"),
        ("%CE12%", "Windows\\Programs\\Accessories"),
        ("%CE13%", "Windows\\Programs\\Communications"),
        ("%CE14%", "Windows\\Programs\\Games"),
        ("%CE15%", "Windows\\Fonts"),
        ("%CE16%", "Windows\\Recent"),
        ("%CE17%", "Windows\\Favorites"),
    ];
    r
}

/// Replaces every root placeholder in `path` by the directory it stands for.
pub fn expand_ce_variables(path: &str) -> (r: String)
    ensures
        r@ == expand_ce(path@),
{
    let table = ce_dirs();
    let mut cur = chars_of(path);
    let mut k: usize = 0;
    while k < table.len()
        invariant
            k <= table@.len() == ce_dir_table().len(),
            forall|j: int| 0 <= j < table@.len() ==> (#[trigger] table@[j]).0@ == ce_dir_table()[j].0 && table@[j].1@ == ce_dir_table()[j].1,
            cur@ == expand_with(ce_dir_table().subrange(0, k as int), path@),
        decreases table@.len() - k,
    {
        let from = chars_of(table[k].0);
        let to = chars_of(table[k].1);
        cur = replace_chars(&cur, &from, &to);
        assert(ce_dir_table().subrange(0, k + 1).drop_last() =~= ce_dir_table().subrange(0, k as int));
        k = k + 1;
    }
    assert(ce_dir_table().subrange(0, k as int) =~= ce_dir_table());
    string_of(&cur, 0, cur.len())
}

/// Text in which no `from` occurs is left as it is by replacing `from`.
proof fn lemma_replace_absent(s: Seq<char>, from: Seq<char>, to: Seq<char>)
    requires
        !occurs_in(from, s),
    ensures
        replace_all(s, from, to) == s,
    decreases s.len(),
{
    if s.len() > 0 && from.len() > 0 {
        assert(!occurs_at(s, 0, from));
        assert forall|i: int| !#[trigger] occurs_at(s.drop_first(), i, from) by {
            if occurs_at(s.drop_first(), i, from) {
                assert(s.drop_first().subrange(i, i + from.len()) =~= s.subrange(i + 1, i + 1 + from.len()));
                assert(occurs_at(s, i + 1, from));
            }
        }
        lemma_replace_absent(s.drop_first(), from, to);
        assert(seq![s[0]] + s.drop_first() =~= s);
    }
}

proof fn lemma_expand_with_absent(t: Seq<(Seq<char>, Seq<char>)>, s: Seq<char>)
    requires
        forall|k: int| 0 <= k < t.len() ==> !occurs_in(#[trigger] t[k].0, s),
    ensures
        expand_with(t, s) == s,
    decreases t.len(),
{
    if t.len() > 0 {
        lemma_expand_with_absent(t.drop_last(), s);
        assert(!occurs_in(t[t.len() - 1].0, s));
        lemma_replace_absent(s, t.last().0, t.last().1);
    }
}

/// A path in which no root placeholder occurs is left unchanged by
/// expansion, so expanding it again changes nothing either.
pub proof fn lemma_expand_without_placeholders(s: Seq<char>)
    requires
        forall|k: int| 0 <= k < ce_dir_table().len() ==> !occurs_in(#[trigger] ce_dir_table()[k].0, s),
    ensures
        expand_ce(s) == s,
        expand_ce(expand_ce(s)) == expand_ce(s),
{
    lemma_expand_with_absent(ce_dir_table(), s);
}


/// How a cabinet folder is compressed.
#[derive(Debug, Clone, Copy, PartialEq, Eq, Structural)]
pub enum CompressionType {
    /// Stored without compression.
    Stored,
    MsZip,
    /// Quantum compression with its level and memory.
    Quantum(u16, u16),
    /// LZX compression with its window size in bytes.
    Lzx(u32),
}

/// A member of a cabinet as its listing shows it.
pub struct CabMember {
    /// The member's stored name.
    pub name: String,
    /// The compression of the folder that holds it.
    pub compression: CompressionType,
    /// Its timestamp in seconds since the Unix epoch, where it has one.
    pub timestamp: Option<i64>,
    /// Its size once decompressed.
    pub size: u32,
}

/// Where one cabinet member is to be extracted, and with what metadata.
pub struct WinCECabFileEntry {
    pub cab_filename: String,
    pub compression: CompressionType,
    /// Seconds since the Unix epoch.
    pub file_time: i64,
    pub file_size: u32,
    /// The destination, with its root placeholders not yet expanded.
    pub destination: String,
}

/// Whether the member name `name` carries the manifest's extension.
pub open spec fn is_manifest_name(name: Seq<char>) -> bool {
    name_extension(name) == Some(seq!['0', '0', '0'])
}

/// The index of the first member whose extension is `000`: the manifest.
pub open spec fn first_manifest(members: Seq<CabMember>) -> Option<int>
    decreases members.len(),
{
    if members.len() == 0 {
        None
    } else {
        match first_manifest(members.drop_last()) {
            Some(i) => Some(i),
            None => if is_manifest_name(members.last().name@) {
                Some(members.len() - 1)
            } else {
                None
            },
        }
    }
}

proof fn lemma_first_manifest_bounds(ms: Seq<CabMember>)
    ensures
        first_manifest(ms) matches Some(i) ==> 0 <= i < ms.len(),
    decreases ms.len(),
{
    if ms.len() > 0 {
        lemma_first_manifest_bounds(ms.drop_last());
    }
}

proof fn lemma_first_manifest_prefix(ms: Seq<CabMember>, k: int)
    requires
        0 <= k <= ms.len(),
        first_manifest(ms.subrange(0, k)) is Some,
    ensures
        first_manifest(ms) == first_manifest(ms.subrange(0, k)),
    decreases ms.len() - k,
{
    if k == ms.len() {
        assert(ms.subrange(0, k) =~= ms);
    } else {
        assert(ms.subrange(0, k + 1).drop_last() =~= ms.subrange(0, k));
        lemma_first_manifest_prefix(ms, k + 1);
    }
}

fn is_ext(e: &String, a: char, b: char, c: char) -> (r: bool)
    ensures
        r == (e@ == seq![a, b, c]),
{
    let v = chars_of(e.as_str());
    if v.len() == 3 && v[0] == a && v[1] == b && v[2] == c {
        assert(v@ =~= seq![a, b, c]);
        true
    } else {
        false
    }
}

/// Finds the manifest among the members of a cabinet.
pub fn find_000_manifest(members: &Vec<CabMember>) -> (r: Option<usize>)
    ensures
        match r {
            Some(i) => first_manifest(members@) == Some(i as int),
            None => first_manifest(members@) is None,
        },
{
    let mut i: usize = 0;
    while i < members.len()
        invariant
            i <= members@.len(),
            first_manifest(members@.subrange(0, i as int)) is None,
        decreases members@.len() - i,
    {
        let found = match extension(members[i].name.as_str()) {
            Some(e) => is_ext(&e, '0', '0', '0'),
            None => false,
        };
        assert(members@.subrange(0, i + 1).drop_last() =~= members@.subrange(0, i as int));
        if found {
            proof { lemma_first_manifest_prefix(members@, i + 1); }
            return Some(i);
        }
        i = i + 1;
    }
    assert(members@.subrange(0, i as int) =~= members@);
    None
}

/// Where a member named `name` is extracted to, given the redirect map
/// `map`: the path that the map gives its extension; else a fixed name for
/// the extensions `000` (the manifest) and `999` (the setup stub); else the
/// member's own name.
pub open spec fn planned_destination(map: Seq<(Seq<char>, Seq<char>)>, name: Seq<char>) -> Seq<char> {
    match name_extension(name) {
        Some(e) => match redirect_lookup(map, e) {
            Some(path) => path,
            None => if e == seq!['0', '0', '0'] {
                "manifest.bin"@
            } else if e == seq!['9', '9', '9'] {
                "setup.dll"@
            } else {
                name
            },
        },
        None => name,
    }
}

/// Where the member named `name` is extracted to.
pub fn destination(map: &RedirectMap, name: &String) -> (r: String)
    ensures
        r@ == planned_destination(map@, name@),
{
    match extension(name.as_str()) {
        Some(e) => match map.get(&e) {
            Some(path) => path,
            None => {
                if is_ext(&e, '0', '0', '0') {
                    String::from_str("manifest.bin")
                } else if is_ext(&e, '9', '9', '9') {
                    String::from_str("setup.dll")
                } else {
                    name.clone()
                }
            },
        },
        None => name.clone(),
    }
}

/// A member whose extension the redirect map lacks, and which is neither
/// `000` nor `999`, is extracted under its own name.
pub proof fn lemma_unmapped_keeps_name(map: Seq<(Seq<char>, Seq<char>)>, name: Seq<char>)
    requires
        match name_extension(name) {
            Some(e) => redirect_lookup(map, e) is None && e != seq!['0', '0', '0'] && e != seq!['9', '9', '9'],
            None => true,
        },
    ensures
        planned_destination(map, name) == name,
{
}

/// Whether `e` is the plan for member `m`: its name, compression and size
/// as listed, its timestamp or else `now`, and its planned destination.
pub open spec fn plans_member(e: WinCECabFileEntry, m: CabMember, map: Seq<(Seq<char>, Seq<char>)>, now: i64) -> bool {
    &&& e.cab_filename@ == m.name@
    &&& e.compression == m.compression
    &&& e.file_time == match m.timestamp {
        Some(t) => t,
        None => now,
    }
    &&& e.file_size == m.size
    &&& e.destination@ == planned_destination(map, m.name@)
}

/// The member that the `j`-th plan entry is for, once the member at `skip`
/// is left out.
pub open spec fn source_index(skip: Option<int>, j: int) -> int {
    match skip {
        Some(s) => if j < s { j } else { j + 1 },
        None => j,
    }
}

/// Plans the extraction of every member but the manifest, in listing order.
/// `now`, in seconds since the Unix epoch, stands in for a missing
/// timestamp.
pub fn list_files(members: &Vec<CabMember>, map: &RedirectMap, now: i64) -> (r: Vec<WinCECabFileEntry>)
    ensures
        ({
            let skip = first_manifest(members@);
            &&& r@.len() == members@.len() - if skip is Some { 1int } else { 0int }
            &&& forall|j: int| 0 <= j < r@.len() ==> plans_member(#[trigger] r@[j], members@[source_index(skip, j)], map@, now)
        }),
{
    let skip = find_000_manifest(members);
    let ghost gskip = first_manifest(members@);
    proof { lemma_first_manifest_bounds(members@); }
    let mut r: Vec<WinCECabFileEntry> = Vec::new();
    let mut i: usize = 0;
    while i < members.len()
        invariant
            i <= members@.len(),
            gskip == first_manifest(members@),
            match skip {
                Some(s) => gskip == Some(s as int) && s < members@.len()
                    && r@.len() == if i <= s { i as int } else { i - 1 },
                None => gskip is None && r@.len() == i,
            },
            forall|j: int| 0 <= j < r@.len() ==> plans_member(#[trigger] r@[j], members@[source_index(gskip, j)], map@, now),
        decreases members@.len() - i,
    {
        if skip != Some(i) {
            let m = &members[i];
            let file_time = match m.timestamp {
                Some(t) => t,
                None => now,
            };
            let entry = WinCECabFileEntry {
                cab_filename: m.name.clone(),
                compression: m.compression,
                file_time,
                file_size: m.size,
                destination: destination(map, &m.name),
            };
            r.push(entry);
        }
        i = i + 1;
    }
    r
}

} // verus!
