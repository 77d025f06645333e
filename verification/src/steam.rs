//! The game catalog: records pairing a numeric game identifier with a display
//! name, populated either from local per-installation manifest files or from a
//! remote profile library, and the resolution order between the two.

use vstd::prelude::*;

use crate::text::{
    dec_digits, digits_val, ends_with_spec, ends_with_str, find_char, find_from,
    lemma_dec_digits_all_digits, lemma_dec_digits_val, lemma_split_chr_first, parse_u64_range,
    parse_u64_spec, split_chr, starts_with_spec, starts_with_str, trim_spec, trim_str,
};

verus! {

/// One game record: a numeric identifier and its display name.
pub struct Game {
    pub app_id: u64,
    pub name: String,
}

/// The mathematical shape of a [`Game`]: identifier and name characters.
pub ghost struct GameV {
    pub app_id: u64,
    pub name: Seq<char>,
}

impl DeepView for Game {
    type V = GameV;

    open spec fn deep_view(&self) -> GameV {
        GameV { app_id: self.app_id, name: self.name@ }
    }
}

/// The name of the first record of `catalog` whose identifier is `id`.
pub open spec fn lookup_spec(catalog: Seq<GameV>, id: u64) -> Option<Seq<char>>
    decreases catalog.len(),
{
    if catalog.len() == 0 {
        None
    } else if catalog[0].app_id == id {
        Some(catalog[0].name)
    } else {
        lookup_spec(catalog.drop_first(), id)
    }
}

/// Find the first record of `catalog` whose identifier is `id` and return a
/// copy of its name.
pub fn lookup(catalog: &Vec<Game>, id: u64) -> (r: Option<String>)
    ensures
        r.deep_view() == lookup_spec(catalog.deep_view(), id),
{
    let ghost cv = catalog.deep_view();
    proof {
        assert(cv.skip(0) =~= cv);
    }
    let mut i: usize = 0;
    while i < catalog.len()
        invariant
            0 <= i <= catalog.len(),
            cv == catalog.deep_view(),
            cv.len() == catalog.len(),
            lookup_spec(cv, id) == lookup_spec(cv.skip(i as int), id),
        decreases catalog.len() - i,
    {
        proof {
            assert(cv.skip(i as int)[0] == cv[i as int]);
        }
        if catalog[i].app_id == id {
            return Some(catalog[i].name.clone());
        }
        proof {
            assert(cv.skip(i as int).drop_first() =~= cv.skip(i + 1));
        }
        i = i + 1;
    }
    proof {
        assert(cv.skip(catalog.len() as int).len() == 0);
    }
    None
}

/// What resolving an identifier yields: the local catalog's name when it has
/// one, otherwise the remote catalog's name when a remote catalog is at hand
/// and has one, otherwise nothing.
pub open spec fn resolve_spec(id: u64, local: Seq<GameV>, remote: Option<Seq<GameV>>) -> Option<
    Seq<char>,
> {
    if lookup_spec(local, id) is Some {
        lookup_spec(local, id)
    } else {
        match remote {
            Some(r) => lookup_spec(r, id),
            None => None,
        }
    }
}

/// Resolve a game identifier to a display name, preferring the local manifest
/// catalog and falling back to the remote library.
pub fn resolve(id: u64, local: &Vec<Game>, remote: Option<&Vec<Game>>) -> (r: Option<String>)
    ensures
        r.deep_view() == resolve_spec(id, local.deep_view(), remote.deep_view()),
{
    let local_name = lookup(local, id);
    if local_name.is_some() {
        return local_name;
    }
    match remote {
        Some(catalog) => lookup(catalog, id),
        None => None,
    }
}

/// A name the local catalog gives to an identifier is the one resolution
/// returns, whatever any remote catalog would say about the same identifier.
pub proof fn lemma_local_precedence(
    id: u64,
    local: Seq<GameV>,
    remote: Option<Seq<GameV>>,
    name: Seq<char>,
)
    requires
        lookup_spec(local, id) == Some(name),
    ensures
        resolve_spec(id, local, remote) == Some(name),
{
}

/// The profile-style rendering of an account identifier.
pub open spec fn id3_spec(steam_id: u64) -> Seq<char> {
    "[U:1:"@ + dec_digits(steam_id as nat) + "]"@
}

/// Render an account identifier in the bracketed profile form.
pub fn id_to_id3(steam_id: u64) -> (r: String)
    ensures
        r@ == id3_spec(steam_id),
{
    let mut out = String::from_str("[U:1:");
    crate::text::append_decimal(&mut out, steam_id);
    out.append("]");
    assert(out@ =~= id3_spec(steam_id));
    out
}

/// The first directory name that parses as a nonzero account identifier.
pub open spec fn first_steam_id(names: Seq<Seq<char>>) -> Option<u64>
    decreases names.len(),
{
    if names.len() == 0 {
        None
    } else if parse_u64_spec(names[0]) is Some && parse_u64_spec(names[0]) != Some(0u64) {
        parse_u64_spec(names[0])
    } else {
        first_steam_id(names.drop_first())
    }
}

/// Pick the account identifier: the first of the given directory names that
/// parses as a nonzero number.
pub fn get_id(names: &Vec<String>) -> (r: Option<u64>)
    ensures
        r == first_steam_id(names.deep_view()),
{
    let ghost nv = names.deep_view();
    proof {
        assert(nv.skip(0) =~= nv);
    }
    let mut i: usize = 0;
    while i < names.len()
        invariant
            0 <= i <= names.len(),
            nv == names.deep_view(),
            nv.len() == names.len(),
            first_steam_id(nv) == first_steam_id(nv.skip(i as int)),
        decreases names.len() - i,
    {
        proof {
            assert(nv.skip(i as int)[0] == nv[i as int]);
        }
        let name = &names[i];
        let n = name.as_str().unicode_len();
        match parse_u64_range(name.as_str(), 0, n) {
            Some(id) if id != 0 => {
                proof {
                    assert(name@.subrange(0, name@.len() as int) =~= name@);
                }
                return Some(id);
            },
            _ => {
                proof {
                    assert(name@.subrange(0, name@.len() as int) =~= name@);
                    assert(nv.skip(i as int).drop_first() =~= nv.skip(i + 1));
                }
            },
        }
        i = i + 1;
    }
    proof {
        assert(nv.skip(names.len() as int).len() == 0);
    }
    None
}

/// The manifest file name that belongs to a game identifier.
pub open spec fn manifest_file_name_spec(app_id: u64) -> Seq<char> {
    "appmanifest_"@ + dec_digits(app_id as nat) + ".acf"@
}

/// Build the manifest file name for a game identifier.
pub fn manifest_file_name(app_id: u64) -> (r: String)
    ensures
        r@ == manifest_file_name_spec(app_id),
{
    let mut out = String::from_str("appmanifest_");
    crate::text::append_decimal(&mut out, app_id);
    out.append(".acf");
    assert(out@ =~= manifest_file_name_spec(app_id));
    out
}

/// The identifier encoded in a manifest file name, when the name has the
/// manifest shape.
pub open spec fn manifest_id_spec(name: Seq<char>) -> Option<u64> {
    if name.len() >= 16 && starts_with_spec(name, "appmanifest_"@) && ends_with_spec(
        name,
        ".acf"@,
    ) {
        parse_u64_spec(name.subrange(12, name.len() - 4))
    } else {
        None
    }
}

/// Read the game identifier out of a manifest file name.
pub fn parse_manifest_id(file_name: &str) -> (r: Option<u64>)
    ensures
        r == manifest_id_spec(file_name@),
{
    proof {
        reveal_strlit("appmanifest_");
        reveal_strlit(".acf");
    }
    let n = file_name.unicode_len();
    if n < 16 {
        return None;
    }
    if !starts_with_str(file_name, "appmanifest_") {
        return None;
    }
    if !ends_with_str(file_name, ".acf") {
        return None;
    }
    parse_u64_range(file_name, 12, n - 4)
}

/// The token between the next pair of double quotes at or after position `k`
/// of `t`; to the end of `t` when the pair is not closed, nothing when it is
/// not opened.
pub open spec fn quoted_value_at(t: Seq<char>, k: int) -> Option<Seq<char>>
    recommends
        0 <= k <= t.len(),
{
    let a = find_from(t, '"', k);
    if a >= t.len() {
        None
    } else {
        Some(t.subrange(a + 1, find_from(t, '"', a + 1)))
    }
}

/// The quoted value of the first line whose trimmed text begins with `key`.
pub open spec fn lines_value(lines: Seq<Seq<char>>, key: Seq<char>) -> Option<Seq<char>>
    decreases lines.len(),
{
    if lines.len() == 0 {
        None
    } else if starts_with_spec(trim_spec(lines[0]), key) {
        quoted_value_at(trim_spec(lines[0]), key.len() as int)
    } else {
        lines_value(lines.drop_first(), key)
    }
}

/// Scanning a document line by line: the quoted token that follows `key` on
/// the first line whose trimmed text begins with `key`.
pub open spec fn find_value_spec(s: Seq<char>, key: Seq<char>) -> Option<Seq<char>> {
    lines_value(split_chr(s, '\n'), key)
}

/// Scan `contents` line by line for the first line whose trimmed text begins
/// with `key`, and return the quoted token that follows the key on that line.
pub fn find_quoted_value(contents: &str, key: &str) -> (r: Option<String>)
    ensures
        r.deep_view() == find_value_spec(contents@, key@),
{
    let mut rest: &str = contents;
    loop
        invariant
            find_value_spec(contents@, key@) == lines_value(split_chr(rest@, '\n'), key@),
        decreases rest@.len(),
    {
        let n = rest.unicode_len();
        let e = find_char(rest, '\n', 0);
        let line = rest.substring_char(0, e);
        let t = trim_str(line);
        proof {
            lemma_split_chr_first(rest@, '\n');
            crate::text::lemma_split_chr_len(rest@, '\n');
        }
        if starts_with_str(t, key) {
            let tn = t.unicode_len();
            let k = key.unicode_len();
            let a = find_char(t, '"', k);
            if a >= tn {
                proof {
                    let lines = split_chr(rest@, '\n');
                    assert(lines[0] == rest@.subrange(0, e as int));
                    assert(t@ == trim_spec(lines[0]));
                    assert(starts_with_spec(trim_spec(lines[0]), key@));
                    assert(lines_value(lines, key@) == quoted_value_at(t@, key@.len() as int));
                    assert(quoted_value_at(t@, key@.len() as int) is None);
                    assert(find_value_spec(contents@, key@) is None);
                    assert(None::<String>.deep_view() == find_value_spec(contents@, key@));
                }
                return None;
            }
            let b = find_char(t, '"', a + 1);
            let v = t.substring_char(a + 1, b);
            return Some(String::from_str(v));
        }
        if e >= n {
            proof {
                assert(rest@.subrange(0, e as int) =~= rest@);
                assert(split_chr(rest@, '\n') == seq![rest@]);
                assert(split_chr(rest@, '\n').drop_first().len() == 0);
                assert(lines_value(split_chr(rest@, '\n').drop_first(), key@) is None);
            }
            return None;
        }
        proof {
            assert(split_chr(rest@, '\n').drop_first() =~= split_chr(
                rest@.subrange(e + 1, n as int),
                '\n',
            ));
        }
        rest = rest.substring_char(e + 1, n);
    }
}

/// The display-name key of a manifest file.
pub open spec fn name_key() -> Seq<char> {
    "\"name\""@
}

/// The display name recorded in a manifest file's contents.
pub open spec fn manifest_name_spec(contents: Seq<char>) -> Option<Seq<char>> {
    find_value_spec(contents, name_key())
}

/// Extract the display name from a manifest file's contents: the quoted token
/// that follows the `"name"` key on the first line that carries it.
pub fn parse_manifest_name(contents: &str) -> (r: Option<String>)
    ensures
        r.deep_view() == manifest_name_spec(contents@),
{
    find_quoted_value(contents, "\"name\"")
}

/// The screenshots-directory key of the account's local config file.
pub open spec fn screenshots_path_key() -> Seq<char> {
    "\"InGameOverlayScreenshotSaveUncompressedPath\""@
}

/// The screenshots directory recorded in the account's local config contents.
pub open spec fn screenshots_path_spec(contents: Seq<char>) -> Option<Seq<char>> {
    find_value_spec(contents, screenshots_path_key())
}

/// Extract the configured screenshots directory from the account's local
/// config contents.
pub fn screenshots_config_path(contents: &str) -> (r: Option<String>)
    ensures
        r.deep_view() == screenshots_path_spec(contents@),
{
    find_quoted_value(contents, "\"InGameOverlayScreenshotSaveUncompressedPath\"")
}

/// One local manifest file, as found on disk: its file name and its text.
pub struct ManifestFile {
    pub file_name: String,
    pub contents: String,
}

/// The mathematical shape of a [`ManifestFile`].
pub ghost struct ManifestFileV {
    pub file_name: Seq<char>,
    pub contents: Seq<char>,
}

impl DeepView for ManifestFile {
    type V = ManifestFileV;

    open spec fn deep_view(&self) -> ManifestFileV {
        ManifestFileV { file_name: self.file_name@, contents: self.contents@ }
    }
}

/// The catalog records one manifest file contributes: one, when both its name
/// and its contents parse; none otherwise.
pub open spec fn catalog_entry(m: ManifestFileV) -> Seq<GameV> {
    match (manifest_id_spec(m.file_name), manifest_name_spec(m.contents)) {
        (Some(id), Some(name)) => seq![GameV { app_id: id, name: name }],
        _ => Seq::empty(),
    }
}

/// The local catalog built from a list of manifest files, in their order.
pub open spec fn local_catalog_spec(ms: Seq<ManifestFileV>) -> Seq<GameV>
    decreases ms.len(),
{
    if ms.len() == 0 {
        Seq::empty()
    } else {
        local_catalog_spec(ms.drop_last()) + catalog_entry(ms.last())
    }
}

/// Build the local catalog: one record per manifest file whose name encodes
/// an identifier and whose contents carry a display name.
pub fn build_local_catalog(manifests: &Vec<ManifestFile>) -> (r: Vec<Game>)
    ensures
        r.deep_view() == local_catalog_spec(manifests.deep_view()),
{
    let ghost mv = manifests.deep_view();
    let mut out: Vec<Game> = Vec::new();
    proof {
        assert(mv.take(0).len() == 0);
        assert(out.deep_view() =~= local_catalog_spec(mv.take(0)));
    }
    let mut i: usize = 0;
    while i < manifests.len()
        invariant
            0 <= i <= manifests.len(),
            mv == manifests.deep_view(),
            mv.len() == manifests.len(),
            out.deep_view() == local_catalog_spec(mv.take(i as int)),
        decreases manifests.len() - i,
    {
        let m = &manifests[i];
        let ghost prev = out.deep_view();
        if let Some(id) = parse_manifest_id(m.file_name.as_str()) {
            if let Some(name) = parse_manifest_name(m.contents.as_str()) {
                out.push(Game { app_id: id, name: name });
                proof {
                    assert(out.deep_view() =~= prev + catalog_entry(mv[i as int]));
                }
            }
        }
        proof {
            assert(mv.take(i + 1).drop_last() =~= mv.take(i as int));
            assert(mv.take(i + 1).last() == mv[i as int]);
            assert(out.deep_view() =~= local_catalog_spec(mv.take(i + 1)));
        }
        i = i + 1;
    }
    proof {
        assert(mv.take(manifests.len() as int) =~= mv);
    }
    out
}

/// The upper-case drive letters, in order.
pub open spec fn drive_letters() -> Seq<char> {
    "ABCDEFGHIJKLMNOPQRSTUVWXYZ"@
}

/// The library path candidate on the drive with index `i`.
pub open spec fn drive_path_spec(i: int) -> Seq<char>
    recommends
        0 <= i < 26,
{
    seq![drive_letters()[i]] + ":\\SteamLibrary\\steamapps"@
}

/// The library path candidates that a logical-drive bitmask names, from drive
/// index `i` on: one per set bit, skipping the primary drive.
pub open spec fn drive_paths_spec(m: u32, i: int) -> Seq<Seq<char>>
    decreases 26 - i when 0 <= i <= 26
{
    if i >= 26 {
        Seq::empty()
    } else {
        let rest = drive_paths_spec(m / 2, i + 1);
        if m % 2 == 1 && i != 2 {
            seq![drive_path_spec(i)] + rest
        } else {
            rest
        }
    }
}

/// The installation-root directories to probe for manifests: the primary
/// install location, then one library path per drive the bitmask marks.
pub open spec fn app_directories_spec(drive_mask: u32) -> Seq<Seq<char>> {
    seq!["C:\\Program Files (x86)\\Steam\\steamapps"@] + drive_paths_spec(drive_mask, 0)
}

/// List the installation-root candidates to probe for manifest files, given
/// the bitmask of present logical drives: the primary install location, then
/// a library path on every other marked drive.
pub fn get_app_directories(drive_mask: u32) -> (r: Vec<String>)
    ensures
        r.deep_view() == app_directories_spec(drive_mask),
{
    let letters = "ABCDEFGHIJKLMNOPQRSTUVWXYZ";
    proof {
        reveal_strlit("ABCDEFGHIJKLMNOPQRSTUVWXYZ");
    }
    let mut out: Vec<String> = Vec::new();
    out.push(String::from_str("C:\\Program Files (x86)\\Steam\\steamapps"));
    proof {
        assert(out.deep_view() =~= seq!["C:\\Program Files (x86)\\Steam\\steamapps"@]);
    }
    let mut m: u32 = drive_mask;
    let mut i: usize = 0;
    while i < 26
        invariant
            0 <= i <= 26,
            letters@ == drive_letters(),
            letters@.len() == 26,
            app_directories_spec(drive_mask) == out.deep_view() + drive_paths_spec(m, i as int),
        decreases 26 - i,
    {
        let ghost prev = out.deep_view();
        if m % 2 == 1 && i != 2 {
            let mut path = String::from_str(letters.substring_char(i, i + 1));
            path.append(":\\SteamLibrary\\steamapps");
            assert(path@ =~= drive_path_spec(i as int));
            out.push(path);
            proof {
                assert(out.deep_view() =~= prev + seq![drive_path_spec(i as int)]);
                assert(out.deep_view() + drive_paths_spec(m / 2, i + 1) =~= prev + drive_paths_spec(
                    m,
                    i as int,
                ));
            }
        }
        m = m / 2;
        i = i + 1;
    }
    proof {
        assert(drive_paths_spec(m, 26).len() == 0);
        assert(out.deep_view() + drive_paths_spec(m, 26) =~= out.deep_view());
    }
    out
}

/// A manifest file name built from an identifier parses back to the same
/// identifier.
pub proof fn lemma_manifest_name_round_trip(app_id: u64)
    ensures
        manifest_id_spec(manifest_file_name_spec(app_id)) == Some(app_id),
{
    reveal_strlit("appmanifest_");
    reveal_strlit(".acf");
    let name = manifest_file_name_spec(app_id);
    let d = dec_digits(app_id as nat);
    lemma_dec_digits_all_digits(app_id as nat);
    lemma_dec_digits_val(app_id as nat);
    assert(name.len() == 16 + d.len());
    assert(name.subrange(0, 12) =~= "appmanifest_"@);
    assert(name.subrange(name.len() - 4, name.len() as int) =~= ".acf"@);
    assert(name.subrange(12, name.len() - 4) =~= d);
    assert(digits_val(d) <= u64::MAX);
}

} // verus!
