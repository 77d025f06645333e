//! Version comparison and the update decision: which release tag is current,
//! whether a published release is newer, and which release asset an update
//! would download.

use vstd::prelude::*;

use crate::text::{
    all_digits, digits_val, find_char, lemma_split_chr_first, parse_u64_range, parse_u64_spec,
    skip_char_idx, skip_leading, split_chr,
};

verus! {

/// One downloadable file of a release.
pub struct Asset {
    pub name: String,
    pub browser_download_url: String,
}

/// The mathematical shape of an [`Asset`].
pub ghost struct AssetV {
    pub name: Seq<char>,
    pub browser_download_url: Seq<char>,
}

impl DeepView for Asset {
    type V = AssetV;

    open spec fn deep_view(&self) -> AssetV {
        AssetV { name: self.name@, browser_download_url: self.browser_download_url@ }
    }
}

/// One published release: its tag and its downloadable assets.
pub struct Release {
    pub tag_name: String,
    pub assets: Vec<Asset>,
}

/// The mathematical shape of a [`Release`].
pub ghost struct ReleaseV {
    pub tag_name: Seq<char>,
    pub assets: Seq<AssetV>,
}

impl DeepView for Release {
    type V = ReleaseV;

    open spec fn deep_view(&self) -> ReleaseV {
        ReleaseV { tag_name: self.tag_name@, assets: self.assets.deep_view() }
    }
}

/// A version string with its leading `v` markers removed.
pub open spec fn version_body(s: Seq<char>) -> Seq<char> {
    s.subrange(skip_char_idx(s, 'v', 0), s.len() as int)
}

/// What parsing one dot-separated version component yields: its value when it
/// is a nonempty run of digits that fits in 32 bits, nothing otherwise.
pub open spec fn parse_u32_spec(s: Seq<char>) -> Option<u32> {
    if s.len() > 0 && all_digits(s) && digits_val(s) <= u32::MAX {
        Some(digits_val(s) as u32)
    } else {
        None
    }
}

/// Every component of the list parses as a 32-bit number.
pub open spec fn parts_valid(parts: Seq<Seq<char>>) -> bool {
    forall|i: int| 0 <= i < parts.len() ==> parse_u32_spec(#[trigger] parts[i]) is Some
}

/// The numbers of a component list, in order.
pub open spec fn parts_nums(parts: Seq<Seq<char>>) -> Seq<u32>
    decreases parts.len(),
{
    if parts.len() == 0 {
        Seq::empty()
    } else {
        parts_nums(parts.drop_last()).push(
            match parse_u32_spec(parts.last()) {
                Some(v) => v,
                None => 0u32,
            },
        )
    }
}

/// A well-formed version string: after any leading `v` markers, dot-separated
/// components that each parse as a 32-bit number.
pub open spec fn valid_version(s: Seq<char>) -> bool {
    parts_valid(split_chr(version_body(s), '.'))
}

/// The numeric components of a version string, major first.
pub open spec fn version_nums(s: Seq<char>) -> Seq<u32> {
    parts_nums(split_chr(version_body(s), '.'))
}

/// Whether the version with components `cur` is up to date against `new`:
/// comparing componentwise, the first difference decides, and a version is up
/// to date when no compared component differs.
pub open spec fn up_to_date_spec(cur: Seq<u32>, new: Seq<u32>) -> bool
    decreases cur.len(),
{
    if cur.len() == 0 || new.len() == 0 {
        true
    } else if cur[0] < new[0] {
        false
    } else if cur[0] > new[0] {
        true
    } else {
        up_to_date_spec(cur.drop_first(), new.drop_first())
    }
}

/// Parse a version string into its numeric components; nothing when the
/// string is not a well-formed version.
pub fn parse_version(s: &str) -> (r: Option<Vec<u32>>)
    ensures
        r.deep_view() == if valid_version(s@) {
            Some(version_nums(s@))
        } else {
            None::<Seq<u32>>
        },
        r is Some <==> valid_version(s@),
{
    let n = s.unicode_len();
    let start = skip_leading(s, 'v');
    let body: &str = s.substring_char(start, n);
    assert(body@ == version_body(s@));
    let ghost all_parts = split_chr(version_body(s@), '.');
    let mut out: Vec<u32> = Vec::new();
    let ghost done = Seq::<Seq<char>>::empty();
    let mut rest: &str = body;
    proof {
        assert(done + split_chr(rest@, '.') =~= all_parts);
        assert(out.deep_view() =~= parts_nums(done));
    }
    loop
        invariant
            all_parts == split_chr(version_body(s@), '.'),
            all_parts == done + split_chr(rest@, '.'),
            parts_valid(done),
            out.deep_view() == parts_nums(done),
        decreases rest@.len(),
    {
        let m = rest.unicode_len();
        let e = find_char(rest, '.', 0);
        proof {
            lemma_split_chr_first(rest@, '.');
            crate::text::lemma_split_chr_len(rest@, '.');
        }
        let ghost part = rest@.subrange(0, e as int);
        let ghost sub = split_chr(rest@, '.');
        assert(sub[0] == part);
        assert(all_parts[done.len() as int] == part);
        let v64 = parse_u64_range(rest, 0, e);
        let valid_part = match v64 {
            Some(v) => v <= 0xffff_ffffu64,
            None => false,
        };
        if !valid_part {
            assert(parse_u32_spec(part) is None) by {
                if parse_u64_spec(part) is Some {
                    assert(digits_val(part) <= u64::MAX);
                }
            }
            assert(!parts_valid(all_parts));
            assert(!valid_version(s@));
            return None;
        }
        let v: u32 = match v64 {
            Some(v) => v as u32,
            None => 0u32,
        };
        assert(parse_u32_spec(part) == Some(v));
        out.push(v);
        proof {
            let done2 = done + seq![part];
            assert(done2.drop_last() =~= done);
            assert(done2.last() == part);
            assert(out.deep_view() =~= parts_nums(done2));
        }
        let ghost done_now = done + seq![part];
        if e >= m {
            proof {
                assert(rest@.subrange(0, e as int) =~= rest@);
                assert(sub == seq![rest@]);
                assert(done_now =~= all_parts);
                assert(parts_valid(all_parts)) by {
                    assert(forall|i: int|
                        0 <= i < done_now.len() ==> parse_u32_spec(#[trigger] done_now[i])
                            is Some);
                }
                assert(valid_version(s@));
                assert(out.deep_view() == version_nums(s@));
            }
            return Some(out);
        }
        proof {
            assert(sub.drop_first() =~= split_chr(rest@.subrange(e + 1, m as int), '.'));
            assert(done_now + split_chr(rest@.subrange(e + 1, m as int), '.') =~= all_parts);
        }
        rest = rest.substring_char(e + 1, m);
        proof {
            done = done_now;
        }
    }
}

/// Decide whether the version `current` names is up to date against `new`,
/// comparing numeric components major-first.
pub fn is_up_to_date(current: &str, new: &str) -> (r: bool)
    requires
        valid_version(current@),
        valid_version(new@),
    ensures
        r == up_to_date_spec(version_nums(current@), version_nums(new@)),
{
    let a = match parse_version(current) {
        Some(a) => a,
        None => {
            return true;
        },
    };
    let b = match parse_version(new) {
        Some(b) => b,
        None => {
            return true;
        },
    };
    let ghost av = version_nums(current@);
    let ghost bv = version_nums(new@);
    proof {
        assert(av.skip(0) =~= av);
        assert(bv.skip(0) =~= bv);
    }
    let mut i: usize = 0;
    while i < a.len() && i < b.len()
        invariant
            0 <= i <= a.len(),
            i <= b.len(),
            av == version_nums(current@),
            bv == version_nums(new@),
            a.deep_view() == av,
            b.deep_view() == bv,
            av.len() == a.len(),
            bv.len() == b.len(),
            up_to_date_spec(av, bv) == up_to_date_spec(av.skip(i as int), bv.skip(i as int)),
        decreases a.len() - i,
    {
        proof {
            assert(av.skip(i as int)[0] == av[i as int]);
            assert(bv.skip(i as int)[0] == bv[i as int]);
            assert(a.deep_view()[i as int] == a@[i as int].deep_view());
            assert(b.deep_view()[i as int] == b@[i as int].deep_view());
        }
        if a[i] < b[i] {
            proof {
                assert(av[i as int] < bv[i as int]);
                assert(!up_to_date_spec(av.skip(i as int), bv.skip(i as int)));
            }
            return false;
        }
        if a[i] > b[i] {
            proof {
                assert(av[i as int] > bv[i as int]);
                assert(up_to_date_spec(av.skip(i as int), bv.skip(i as int)));
            }
            return true;
        }
        proof {
            assert(av.skip(i as int).drop_first() =~= av.skip(i + 1));
            assert(bv.skip(i as int).drop_first() =~= bv.skip(i + 1));
        }
        i = i + 1;
    }
    proof {
        assert(av.skip(i as int).len() == 0 || bv.skip(i as int).len() == 0);
    }
    true
}

/// The version this build carries, in the tag form releases use.
pub fn get_current_version() -> (r: String)
    ensures
        r@ == "v0.1.0"@,
{
    String::from_str("v0.1.0")
}

/// The tag of the newest release, when there is any release at all.
pub fn get_latest_version(releases: &Vec<Release>) -> (r: Option<String>)
    ensures
        releases.len() == 0 ==> r is None,
        releases.len() > 0 ==> r.deep_view() == Some(releases.deep_view()[0].tag_name),
{
    if releases.len() == 0 {
        None
    } else {
        proof {
            assert(releases.deep_view()[0] == releases@[0].deep_view());
        }
        Some(releases[0].tag_name.clone())
    }
}

/// The download address of the first asset of the list that carries `name`.
pub open spec fn asset_url_spec(assets: Seq<AssetV>, name: Seq<char>) -> Option<Seq<char>>
    decreases assets.len(),
{
    if assets.len() == 0 {
        None
    } else if assets[0].name == name {
        Some(assets[0].browser_download_url)
    } else {
        asset_url_spec(assets.drop_first(), name)
    }
}

/// What the update decision yields: the address of the newest release's asset
/// called `asset_name`, but nothing when there is no release, when either
/// version string is malformed, when the current version is already up to
/// date, or when the newest release has no asset of that name.
pub open spec fn update_spec(
    current: Seq<char>,
    releases: Seq<ReleaseV>,
    asset_name: Seq<char>,
) -> Option<Seq<char>> {
    if releases.len() == 0 {
        None
    } else if !valid_version(current) || !valid_version(releases[0].tag_name) {
        None
    } else if up_to_date_spec(version_nums(current), version_nums(releases[0].tag_name)) {
        None
    } else {
        asset_url_spec(releases[0].assets, asset_name)
    }
}

/// Decide an update: when the newest release is newer than `current_version`,
/// return the download address of its asset called `asset_name`.
pub fn update(current_version: &str, releases: &Vec<Release>, asset_name: &str) -> (r: Option<
    String,
>)
    ensures
        r.deep_view() == update_spec(current_version@, releases.deep_view(), asset_name@),
{
    if releases.len() == 0 {
        return None;
    }
    proof {
        assert(releases.deep_view()[0] == releases@[0].deep_view());
    }
    if parse_version(current_version).is_none() {
        return None;
    }
    let latest = &releases[0];
    if parse_version(latest.tag_name.as_str()).is_none() {
        return None;
    }
    if is_up_to_date(current_version, latest.tag_name.as_str()) {
        return None;
    }
    let assets = &latest.assets;
    let ghost sv = assets.deep_view();
    proof {
        assert(sv.skip(0) =~= sv);
    }
    let mut i: usize = 0;
    while i < assets.len()
        invariant
            0 <= i <= assets.len(),
            sv == assets.deep_view(),
            sv.len() == assets.len(),
            update_spec(current_version@, releases.deep_view(), asset_name@) == asset_url_spec(
                sv,
                asset_name@,
            ),
            asset_url_spec(sv, asset_name@) == asset_url_spec(sv.skip(i as int), asset_name@),
        decreases assets.len() - i,
    {
        proof {
            assert(sv.skip(i as int)[0] == sv[i as int]);
            assert(sv[i as int] == assets@[i as int].deep_view());
        }
        if string_eq_str(&assets[i].name, asset_name) {
            proof {
                assert(sv.skip(i as int)[0].name == asset_name@);
                assert(asset_url_spec(sv.skip(i as int), asset_name@) == Some(
                    sv.skip(i as int)[0].browser_download_url,
                ));
                assert(asset_url_spec(sv, asset_name@) == Some(
                    assets@[i as int].browser_download_url@,
                ));
            }
            return Some(assets[i].browser_download_url.clone());
        }
        proof {
            assert(sv.skip(i as int).drop_first() =~= sv.skip(i + 1));
        }
        i = i + 1;
    }
    proof {
        assert(sv.skip(assets.len() as int).len() == 0);
    }
    None
}

/// Compare a `String` with a `&str` character by character.
fn string_eq_str(a: &String, b: &str) -> (r: bool)
    ensures
        r == (a@ == b@),
{
    let an = a.as_str().unicode_len();
    let bn = b.unicode_len();
    if an != bn {
        return false;
    }
    let mut i: usize = 0;
    while i < an
        invariant
            0 <= i <= an == a@.len(),
            an == bn == b@.len(),
            forall|j: int| 0 <= j < i ==> a@[j] == b@[j],
        decreases an - i,
    {
        if a.as_str().get_char(i) != b.get_char(i) {
            return false;
        }
        i = i + 1;
    }
    assert(a@ =~= b@);
    true
}

} // verus!
