//! Whether a newer release is out, and which build of it to offer.

use crate::order::{
    arranged, is_order, order, order_has_all, order_is_stable, order_of, precedes, rank_before,
    Rank, RankV,
};
use crate::text::{
    cat2, chars_of, contains, holds, lowercase, lowered, parse_u32, piece, pieces, same, split,
    text_less, text_less_total, text_less_transitive, u32_of, views, Text,
};
use vstd::prelude::*;

verus! {

/// Where a build is chosen by hand, when none is for this machine.
pub const RELEASES_URL: &'static str = "https://mayorana.ch/en/apps";

#[derive(Debug, PartialEq)]
pub struct Artifact {
    pub url: String,
    pub sha256: String,
}

/// What a release publishes for each system, by name.
#[derive(Debug, PartialEq)]
pub struct Platforms {
    pub macos: Vec<(String, Artifact)>,
    pub windows: Vec<(String, Artifact)>,
    pub linux: Vec<(String, Artifact)>,
}

/// The description published with a release.
#[derive(Debug, PartialEq)]
pub struct LatestJson {
    pub version: String,
    pub tag: String,
    pub platforms: Platforms,
}

#[derive(Debug, PartialEq)]
pub struct UpdateInfo {
    pub latest_version: String,
    pub latest_tag: String,
    /// A link to this system's build, or to where one can be chosen.
    pub release_url: String,
}

#[verifier::ext_equal]
pub ghost struct UpdateV {
    pub latest_version: Text,
    pub latest_tag: Text,
    pub release_url: Text,
}

impl View for UpdateInfo {
    type V = UpdateV;

    open spec fn view(&self) -> UpdateV {
        UpdateV {
            latest_version: self.latest_version@,
            latest_tag: self.latest_tag@,
            release_url: self.release_url@,
        }
    }
}

// ── Choosing a build ──────────────────────────────────────────────────────

/// A name and a link.
#[verifier::ext_equal]
pub ghost struct Offer {
    pub key: Text,
    pub url: Text,
}

pub open spec fn offers(entries: Seq<(String, Artifact)>) -> Seq<Offer> {
    entries.map_values(|e: (String, Artifact)| Offer { key: e.0@, url: e.1.url@ })
}

/// The names that an architecture goes by.
pub open spec fn aliases(arch: Text) -> Seq<Text> {
    if arch == "x86_64"@ {
        seq!["x86_64"@, "x86-64"@, "amd64"@, "x64"@]
    } else if arch == "aarch64"@ {
        seq!["aarch64"@, "arm64"@]
    } else {
        seq![arch]
    }
}

/// Whether an offer names an architecture, in its name or its link.
pub open spec fn fits(o: Offer, arch: Text) -> bool {
    exists|i: int|
        #![trigger aliases(arch)[i]]
        0 <= i < aliases(arch).len() && (holds(lowered(o.key), aliases(arch)[i]) || holds(
            lowered(o.url),
            aliases(arch)[i],
        ))
}

pub open spec fn offer_rank(o: Offer) -> RankV {
    RankV { first: 0, second: 0, text: o.key }
}

pub open spec fn offer_ranks(all: Seq<Offer>) -> Seq<RankV> {
    all.map_values(|o: Offer| offer_rank(o))
}

/// The offers by name.
pub open spec fn by_name(all: Seq<Offer>) -> Seq<Offer> {
    arranged(all, offer_ranks(all))
}

/// The link of the first offer that fits.
pub open spec fn first_fit(all: Seq<Offer>, arch: Text) -> Option<Text>
    decreases all.len(),
{
    if all.len() == 0 {
        None
    } else if fits(all[0], arch) {
        Some(all[0].url)
    } else {
        first_fit(all.drop_first(), arch)
    }
}

/// The first by name that fits; failing that, the only one there is.
pub open spec fn picked(all: Seq<Offer>, arch: Text) -> Option<Text> {
    match first_fit(by_name(all), arch) {
        Some(url) => Some(url),
        None => if all.len() == 1 {
            Some(all[0].url)
        } else {
            None
        },
    }
}

fn aliases_of(arch: &str) -> (r: Vec<String>)
    ensures
        views(r@) == aliases(arch@),
{
    let mut out: Vec<String> = Vec::new();
    if same(arch, "x86_64") {
        out.push("x86_64".to_owned());
        out.push("x86-64".to_owned());
        out.push("amd64".to_owned());
        out.push("x64".to_owned());
    } else if same(arch, "aarch64") {
        out.push("aarch64".to_owned());
        out.push("arm64".to_owned());
    } else {
        out.push(arch.to_owned());
    }
    assert(views(out@) =~= aliases(arch@));
    out
}

fn names_arch(key: &str, url: &str, names: &Vec<String>, arch: &str) -> (r: bool)
    requires
        views(names@) == aliases(arch@),
    ensures
        r == fits(Offer { key: key@, url: url@ }, arch@),
{
    let low_key = lowercase(key);
    let low_url = lowercase(url);
    let mut i: usize = 0;
    while i < names.len()
        invariant
            i <= names@.len(),
            views(names@) == aliases(arch@),
            low_key@ == lowered(key@),
            low_url@ == lowered(url@),
            forall|k: int|
                #![trigger aliases(arch@)[k]]
                0 <= k < i ==> !holds(low_key@, aliases(arch@)[k]) && !holds(
                    low_url@,
                    aliases(arch@)[k],
                ),
        decreases names@.len() - i,
    {
        assert(aliases(arch@)[i as int] == names@[i as int]@);
        if contains(low_key.as_str(), names[i].as_str()) || contains(
            low_url.as_str(),
            names[i].as_str(),
        ) {
            return true;
        }
        i = i + 1;
    }
    assert(aliases(arch@).len() == names@.len());
    false
}

/// The link of the build for an architecture, out of what a system has.
pub fn pick(by_os: &Vec<(String, Artifact)>, arch: &str) -> (r: Option<String>)
    ensures
        match r {
            Some(url) => picked(offers(by_os@), arch@) == Some(url@),
            None => picked(offers(by_os@), arch@) is None,
        },
{
    let ghost all = offers(by_os@);
    let names = aliases_of(arch);
    let mut ranks: Vec<Rank> = Vec::new();
    let mut i: usize = 0;
    while i < by_os.len()
        invariant
            i <= by_os@.len(),
            all == offers(by_os@),
            ranks@.len() == i,
            forall|k: int| 0 <= k < i ==> (#[trigger] ranks@[k])@ == offer_rank(all[k]),
        decreases by_os@.len() - i,
    {
        ranks.push(Rank { first: 0, second: 0, text: by_os[i].0.clone() });
        i = i + 1;
    }
    assert(views(ranks@) =~= offer_ranks(all));
    let sorted = order_of(&ranks);
    let ghost o = order(offer_ranks(all));
    let ghost s = by_name(all);
    let mut k: usize = 0;
    assert(s.skip(0) =~= s);
    while k < sorted.len()
        invariant
            k <= sorted@.len(),
            all == offers(by_os@),
            views(names@) == aliases(arch@),
            o == order(offer_ranks(all)),
            is_order(o, offer_ranks(all)),
            o == sorted@.map_values(|i: usize| i as int),
            s == by_name(all),
            first_fit(s, arch@) == first_fit(s.skip(k as int), arch@),
        decreases sorted@.len() - k,
    {
        let at: usize = sorted[k];
        assert(o[k as int] == at);
        assert(0 <= o[k as int] < all.len());
        assert(s.skip(k as int)[0] == all[at as int]);
        assert(s.skip(k as int).drop_first() =~= s.skip(k + 1));
        if names_arch(by_os[at].0.as_str(), by_os[at].1.url.as_str(), &names, arch) {
            return Some(by_os[at].1.url.clone());
        }
        k = k + 1;
    }
    assert(s.skip(k as int).len() == 0);
    if by_os.len() == 1 {
        Some(by_os[0].1.url.clone())
    } else {
        None
    }
}

proof fn first_fit_at(s: Seq<Offer>, arch: Text, k: int)
    requires
        0 <= k < s.len(),
        fits(s[k], arch),
        forall|j: int| 0 <= j < k ==> !fits(#[trigger] s[j], arch),
    ensures
        first_fit(s, arch) == Some(s[k].url),
    decreases k,
{
    if k > 0 {
        assert(!fits(s[0], arch));
        let t = s.drop_first();
        assert forall|j: int| 0 <= j < k - 1 implies !fits(#[trigger] t[j], arch) by {
            assert(t[j] == s[j + 1]);
        }
        first_fit_at(t, arch, k - 1);
    }
}

proof fn first_fit_none(s: Seq<Offer>, arch: Text)
    requires
        forall|j: int| 0 <= j < s.len() ==> !fits(#[trigger] s[j], arch),
    ensures
        first_fit(s, arch) is None,
    decreases s.len(),
{
    if s.len() > 0 {
        assert(!fits(s[0], arch));
        let t = s.drop_first();
        assert forall|j: int| 0 <= j < t.len() implies !fits(#[trigger] t[j], arch) by {
            assert(t[j] == s[j + 1]);
        }
        first_fit_none(t, arch);
    }
}

/// Of the offers that fit, the one whose name comes first is taken, wherever
/// it stands.
pub proof fn least_name_is_picked(all: Seq<Offer>, arch: Text, i: int)
    requires
        0 <= i < all.len(),
        fits(all[i], arch),
        forall|j: int|
            0 <= j < all.len() && j != i && fits(#[trigger] all[j], arch) ==> text_less(
                all[i].key,
                all[j].key,
            ),
    ensures
        picked(all, arch) == Some(all[i].url),
{
    let ranks = offer_ranks(all);
    let o = order(ranks);
    order_is_stable(ranks);
    order_has_all(o, ranks);
    assert(o.contains(i));
    let k = choose|k: int| 0 <= k < o.len() && o[k] == i;
    let s = by_name(all);
    assert(s[k] == all[i]);
    assert forall|j: int| 0 <= j < k implies !fits(#[trigger] s[j], arch) by {
        assert(precedes(ranks, o[j], o[k]));
        assert(0 <= o[j] < all.len());
        assert(s[j] == all[o[j]]);
        if fits(all[o[j]], arch) {
            assert(o[j] != i);
            assert(rank_before(ranks[i], ranks[o[j]]));
        }
    }
    first_fit_at(s, arch, k);
}

/// With nothing that fits, only an offer without a rival is taken.
pub proof fn unfit_offers_are_not_guessed_at(all: Seq<Offer>, arch: Text)
    requires
        forall|j: int| 0 <= j < all.len() ==> !fits(#[trigger] all[j], arch),
    ensures
        picked(all, arch) == if all.len() == 1 {
            Some(all[0].url)
        } else {
            None
        },
{
    let ranks = offer_ranks(all);
    let o = order(ranks);
    order_is_stable(ranks);
    let s = by_name(all);
    assert forall|j: int| 0 <= j < s.len() implies !fits(#[trigger] s[j], arch) by {
        assert(0 <= o[j] < all.len());
        assert(s[j] == all[o[j]]);
    }
    first_fit_none(s, arch);
}

/// Whether no name stands in a list twice.
pub open spec fn names_apart(all: Seq<Offer>) -> bool {
    forall|i: int, j: int|
        0 <= i < all.len() && 0 <= j < all.len() && i != j ==> #[trigger] all[i].key
            != #[trigger] all[j].key
}

proof fn least_fit(all: Seq<Offer>, arch: Text, n: int) -> (m: int)
    requires
        0 < n <= all.len(),
        names_apart(all),
        exists|i: int| 0 <= i < n && fits(#[trigger] all[i], arch),
    ensures
        0 <= m < n,
        fits(all[m], arch),
        forall|j: int|
            0 <= j < n && j != m && fits(#[trigger] all[j], arch) ==> text_less(
                all[m].key,
                all[j].key,
            ),
    decreases n,
{
    if exists|i: int| 0 <= i < n - 1 && fits(#[trigger] all[i], arch) {
        let m = least_fit(all, arch, n - 1);
        if !fits(all[n - 1], arch) {
            m
        } else {
            assert(all[m].key != all[n - 1].key);
            text_less_total(all[m].key, all[n - 1].key);
            if text_less(all[m].key, all[n - 1].key) {
                m
            } else {
                assert forall|j: int| 0 <= j < n && j != n - 1 && fits(
                    #[trigger] all[j],
                    arch,
                ) implies text_less(all[n - 1].key, all[j].key) by {
                    if j != m {
                        text_less_transitive(all[n - 1].key, all[m].key, all[j].key);
                    }
                }
                n - 1
            }
        }
    } else {
        n - 1
    }
}

/// Which build is taken does not depend on the order in which they are
/// listed.
pub proof fn listing_order_does_not_matter(a: Seq<Offer>, b: Seq<Offer>, arch: Text)
    requires
        names_apart(a),
        names_apart(b),
        a.len() == b.len(),
        forall|x: Offer| a.contains(x) <==> b.contains(x),
    ensures
        picked(a, arch) == picked(b, arch),
{
    if exists|i: int| 0 <= i < a.len() && fits(#[trigger] a[i], arch) {
        let m = least_fit(a, arch, a.len() as int);
        least_name_is_picked(a, arch, m);
        assert(a.contains(a[m]));
        assert(b.contains(a[m]));
        let k = choose|k: int| 0 <= k < b.len() && b[k] == a[m];
        assert forall|j: int| 0 <= j < b.len() && j != k && fits(
            #[trigger] b[j],
            arch,
        ) implies text_less(b[k].key, b[j].key) by {
            assert(b.contains(b[j]));
            assert(a.contains(b[j]));
            let i = choose|i: int| 0 <= i < a.len() && a[i] == b[j];
            assert(b[j].key != b[k].key);
            assert(fits(a[i], arch));
        }
        least_name_is_picked(b, arch, k);
    } else {
        unfit_offers_are_not_guessed_at(a, arch);
        assert forall|j: int| 0 <= j < b.len() implies !fits(#[trigger] b[j], arch) by {
            assert(b.contains(b[j]));
            assert(a.contains(b[j]));
            let i = choose|i: int| 0 <= i < a.len() && a[i] == b[j];
            assert(!fits(a[i], arch));
        }
        unfit_offers_are_not_guessed_at(b, arch);
        if a.len() == 1 {
            assert(a.contains(a[0]));
            assert(b.contains(a[0]));
        }
    }
}

/// What a release publishes for a system; nothing for one that is not built
/// for.
pub open spec fn published(p: Platforms, os: Text) -> Option<Seq<Offer>> {
    if os == "macos"@ {
        Some(offers(p.macos@))
    } else if os == "windows"@ {
        Some(offers(p.windows@))
    } else if os == "linux"@ {
        Some(offers(p.linux@))
    } else {
        None
    }
}

/// The link to offer, marked as coming from an existing install.
pub open spec fn link_for(p: Platforms, os: Text, arch: Text) -> Text {
    match published(p, os) {
        Some(all) => match picked(all, arch) {
            Some(url) => if url.len() > 0 {
                url + "?src=updater"@
            } else {
                RELEASES_URL@
            },
            None => RELEASES_URL@,
        },
        None => RELEASES_URL@,
    }
}

/// The link to this machine's build. With none that is clearly for it, the
/// page where one can be chosen.
pub fn platform_url(platforms: &Platforms, os: &str, arch: &str) -> (r: String)
    ensures
        r@ == link_for(*platforms, os@, arch@),
{
    let by_os: &Vec<(String, Artifact)> = if same(os, "macos") {
        &platforms.macos
    } else if same(os, "windows") {
        &platforms.windows
    } else if same(os, "linux") {
        &platforms.linux
    } else {
        return RELEASES_URL.to_owned();
    };
    match pick(by_os, arch) {
        Some(url) => {
            let chars = chars_of(url.as_str());
            if chars.len() > 0 {
                cat2(url.as_str(), "?src=updater")
            } else {
                RELEASES_URL.to_owned()
            }
        },
        None => RELEASES_URL.to_owned(),
    }
}

// ── Versions ──────────────────────────────────────────────────────────────

/// A text without the `v`s that it begins with.
pub open spec fn without_v(s: Text) -> Text
    decreases s.len(),
{
    if s.len() > 0 && s[0] == 'v' {
        without_v(s.drop_first())
    } else {
        s
    }
}

/// A text up to its first hyphen or plus.
pub open spec fn core_of(s: Text) -> Text
    decreases s.len(),
{
    if s.len() == 0 || s[0] == '-' || s[0] == '+' {
        Seq::empty()
    } else {
        seq![s[0]] + core_of(s.drop_first())
    }
}

#[verifier::ext_equal]
pub struct Version {
    pub major: u32,
    pub minor: u32,
    pub patch: u32,
}

/// The version that a text spells.
pub open spec fn version_of(s: Text) -> Option<Version> {
    let parts = pieces(without_v(s), '.');
    if parts.len() < 3 {
        None
    } else {
        match (u32_of(parts[0]), u32_of(parts[1]), u32_of(core_of(parts[2]))) {
            (Some(major), Some(minor), Some(patch)) => Some(Version { major, minor, patch }),
            _ => None,
        }
    }
}

pub open spec fn version_after(a: Version, b: Version) -> bool {
    if a.major != b.major {
        a.major > b.major
    } else if a.minor != b.minor {
        a.minor > b.minor
    } else {
        a.patch > b.patch
    }
}

/// Whether both texts spell versions, and the first is the higher.
pub open spec fn newer(a: Text, b: Text) -> bool {
    match (version_of(a), version_of(b)) {
        (Some(x), Some(y)) => version_after(x, y),
        _ => false,
    }
}

fn strip_v(s: &str) -> (r: String)
    ensures
        r@ == without_v(s@),
{
    let chars = chars_of(s);
    let n: usize = chars.len();
    let mut i: usize = 0;
    assert(s@.skip(0) =~= s@);
    while i < n && chars[i] == 'v'
        invariant
            i <= n,
            n == chars@.len(),
            chars@ == s@,
            without_v(s@) == without_v(s@.skip(i as int)),
        decreases n - i,
    {
        assert(s@.skip(i as int).drop_first() =~= s@.skip(i + 1));
        i = i + 1;
    }
    assert(s@.subrange(i as int, n as int) =~= s@.skip(i as int));
    piece(&chars, i, n)
}

fn patch_core(s: &str) -> (r: String)
    ensures
        r@ == core_of(s@),
{
    let chars = chars_of(s);
    let n: usize = chars.len();
    let mut i: usize = 0;
    assert(s@.skip(0) =~= s@);
    assert(s@.take(0) + core_of(s@.skip(0)) =~= core_of(s@));
    while i < n && chars[i] != '-' && chars[i] != '+'
        invariant
            i <= n,
            n == chars@.len(),
            chars@ == s@,
            core_of(s@) == s@.take(i as int) + core_of(s@.skip(i as int)),
        decreases n - i,
    {
        let ghost rest = s@.skip(i as int);
        assert(rest.drop_first() =~= s@.skip(i + 1));
        assert(s@.take(i + 1) =~= s@.take(i as int) + seq![rest[0]]);
        assert(s@.take(i as int) + core_of(rest) =~= s@.take(i + 1) + core_of(s@.skip(i + 1)));
        i = i + 1;
    }
    assert(core_of(s@.skip(i as int)) =~= Seq::empty());
    assert(s@.subrange(0, i as int) =~= core_of(s@));
    piece(&chars, 0, i)
}

fn read_version(s: &str) -> (r: Option<Version>)
    ensures
        r == version_of(s@),
{
    let bare = strip_v(s);
    let parts = split(bare.as_str(), '.');
    let ghost pv = pieces(without_v(s@), '.');
    assert(views(parts@) == pv);
    assert(parts@.len() == pv.len());
    if parts.len() < 3 {
        return None;
    }
    assert(parts@[0]@ == pv[0]);
    assert(parts@[1]@ == pv[1]);
    assert(parts@[2]@ == pv[2]);
    let last = patch_core(parts[2].as_str());
    match (parse_u32(parts[0].as_str()), parse_u32(parts[1].as_str()), parse_u32(last.as_str())) {
        (Some(major), Some(minor), Some(patch)) => Some(Version { major, minor, patch }),
        _ => None,
    }
}

/// Whether version `a` is higher than version `b`. What is no version is not
/// newer than anything, and nothing is newer than it.
pub fn is_newer(a: &str, b: &str) -> (r: bool)
    ensures
        r == newer(a@, b@),
{
    match (read_version(a), read_version(b)) {
        (Some(x), Some(y)) => if x.major != y.major {
            x.major > y.major
        } else if x.minor != y.minor {
            x.minor > y.minor
        } else {
            x.patch > y.patch
        },
        _ => false,
    }
}

/// No version is newer than itself, and of two versions at most one is newer
/// than the other.
pub proof fn newer_is_one_way(a: Text, b: Text)
    ensures
        !newer(a, a),
        newer(a, b) ==> !newer(b, a),
{
}

/// What is newer than a newer version is newer.
pub proof fn newer_is_transitive(a: Text, b: Text, c: Text)
    requires
        newer(a, b),
        newer(b, c),
    ensures
        newer(a, c),
{
}

/// A leading `v` makes no difference.
pub proof fn leading_v_is_ignored(s: Text)
    ensures
        version_of(seq!['v'] + s) == version_of(s),
{
    assert((seq!['v'] + s).drop_first() =~= s);
}

/// The update to offer to an install of version `current`, if the release is
/// newer.
pub fn check(latest: LatestJson, current: &str, os: &str, arch: &str) -> (r: Option<UpdateInfo>)
    ensures
        match r {
            Some(info) => newer(latest.version@, current@) && info@ == (UpdateV {
                latest_version: latest.version@,
                latest_tag: latest.tag@,
                release_url: link_for(latest.platforms, os@, arch@),
            }),
            None => !newer(latest.version@, current@),
        },
{
    if is_newer(latest.version.as_str(), current) {
        let release_url = platform_url(&latest.platforms, os, arch);
        Some(
            UpdateInfo {
                latest_version: latest.version,
                latest_tag: latest.tag,
                release_url,
            },
        )
    } else {
        None
    }
}

// ── What decides an update ────────────────────────────────────────────────

/// The first number in which two versions differ decides, the leftmost
/// first; what spells no version is neither newer nor older.
pub proof fn the_first_difference_decides(a: Text, b: Text, x: Version, y: Version)
    ensures
        version_of(a) == Some(x) && version_of(b) == Some(y) ==> {
            &&& x.major > y.major ==> newer(a, b)
            &&& x.major < y.major ==> !newer(a, b)
            &&& x.major == y.major && x.minor > y.minor ==> newer(a, b)
            &&& x.major == y.major && x.minor < y.minor ==> !newer(a, b)
            &&& x.major == y.major && x.minor == y.minor ==> (newer(a, b) <==> x.patch > y.patch)
        },
        version_of(a) is None || version_of(b) is None ==> !newer(a, b),
{
}

/// The patch number ends at the first hyphen or plus; what follows is no
/// part of the version.
pub proof fn suffixes_are_no_part_of_the_version(s: Text, i: int)
    requires
        0 <= i <= s.len(),
        i < s.len() ==> s[i] == '-' || s[i] == '+',
        forall|j: int| 0 <= j < i ==> #[trigger] s[j] != '-' && s[j] != '+',
    ensures
        core_of(s) == s.subrange(0, i),
    decreases i,
{
    if i > 0 {
        let rest = s.drop_first();
        assert(s[0] != '-' && s[0] != '+');
        assert forall|j: int| 0 <= j < i - 1 implies #[trigger] rest[j] != '-' && rest[j]
            != '+' by {
            assert(rest[j] == s[j + 1]);
        }
        assert(i < s.len() ==> rest[i - 1] == s[i]);
        suffixes_are_no_part_of_the_version(rest, i - 1);
        assert(seq![s[0]] + rest.subrange(0, i - 1) =~= s.subrange(0, i));
    } else {
        assert(s.subrange(0, 0) =~= Seq::empty());
    }
}

/// A version is the first three numbers between dots; with fewer, or with
/// one that is no number, there is none.
pub proof fn versions_are_three_numbers(s: Text, a: u32, b: u32, c: u32)
    requires
        s.len() > 0 ==> s[0] != 'v',
    ensures
        pieces(s, '.').len() < 3 ==> version_of(s) is None,
        pieces(s, '.').len() >= 3 && u32_of(pieces(s, '.')[0]) == Some(a) && u32_of(
            pieces(s, '.')[1],
        ) == Some(b) && u32_of(core_of(pieces(s, '.')[2])) == Some(c) ==> version_of(s) == Some(
            Version { major: a, minor: b, patch: c },
        ),
        pieces(s, '.').len() >= 3 && (u32_of(pieces(s, '.')[0]) is None || u32_of(
            pieces(s, '.')[1],
        ) is None || u32_of(core_of(pieces(s, '.')[2])) is None) ==> version_of(s) is None,
{
}

/// A build is for an architecture when its name or its link holds one of the
/// names that the architecture goes by, in whatever letters.
pub proof fn builds_are_told_by_either_name(o: Offer, t: Text)
    requires
        t == lowered(o.key) || t == lowered(o.url),
    ensures
        holds(t, "x86_64"@) || holds(t, "x86-64"@) || holds(t, "amd64"@) || holds(t, "x64"@)
            ==> fits(o, "x86_64"@),
        holds(t, "aarch64"@) || holds(t, "arm64"@) ==> fits(o, "aarch64"@),
{
    reveal_strlit("x86_64");
    reveal_strlit("aarch64");
    assert("x86_64"@.len() != "aarch64"@.len());
    let a = aliases("x86_64"@);
    assert(a[0] == "x86_64"@ && a[1] == "x86-64"@ && a[2] == "amd64"@ && a[3] == "x64"@);
    let b = aliases("aarch64"@);
    assert(b[0] == "aarch64"@ && b[1] == "arm64"@);
}

/// No build is for an architecture that neither its name nor its link names.
pub proof fn unnamed_builds_fit_nothing(o: Offer, arch: Text)
    ensures
        fits(o, arch) && arch != "x86_64"@ && arch != "aarch64"@ ==> holds(lowered(o.key), arch)
            || holds(lowered(o.url), arch),
        fits(o, "aarch64"@) ==> holds(lowered(o.key), "aarch64"@) || holds(
            lowered(o.key),
            "arm64"@,
        ) || holds(lowered(o.url), "aarch64"@) || holds(lowered(o.url), "arm64"@),
{
    reveal_strlit("x86_64");
    reveal_strlit("aarch64");
    assert("x86_64"@.len() != "aarch64"@.len());
}

/// Each system is offered its own builds, and one that nothing is built for
/// the page to choose from; so is one without a build that fits.
pub proof fn systems_get_their_own_builds(p: Platforms, arch: Text, url: Text)
    ensures
        published(p, "macos"@) == Some(offers(p.macos@)),
        published(p, "windows"@) == Some(offers(p.windows@)),
        published(p, "linux"@) == Some(offers(p.linux@)),
        forall|os: Text|
            os != "macos"@ && os != "windows"@ && os != "linux"@ ==> (#[trigger] link_for(
                p,
                os,
                arch,
            )) == "https://mayorana.ch/en/apps"@,
        forall|os: Text|
            published(p, os) is Some && picked(published(p, os)->0, arch) == Some(url) && url.len()
                > 0 ==> (#[trigger] link_for(p, os, arch)) == url + "?src=updater"@,
        forall|os: Text|
            published(p, os) is Some && picked(published(p, os)->0, arch) is None ==> (
            #[trigger] link_for(p, os, arch)) == "https://mayorana.ch/en/apps"@,
{
    reveal_strlit("macos");
    reveal_strlit("windows");
    reveal_strlit("linux");
    assert("macos"@[0] != "linux"@[0]);
    assert("windows"@.len() != "macos"@.len());
    assert("windows"@.len() != "linux"@.len());
}

} // verus!
