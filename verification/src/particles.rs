//! Particle system editor: module settings vocabulary and the bookkeeping of
//! the editor's list of systems.

use vstd::prelude::*;
use vstd::string::*;

verus! {

/// Space in which particles simulate.
#[derive(Debug, Clone, Copy, PartialEq, Eq, Structural)]
pub enum SimulationSpace {
    Local,
    World,
    Custom,
}

/// What a system does when it stops; `Nothing` leaves it as it is.
#[derive(Debug, Clone, Copy, PartialEq, Eq, Structural)]
pub enum StopAction {
    Nothing,
    Disable,
    Destroy,
    Callback,
}

/// How a system behaves while off screen.
#[derive(Debug, Clone, Copy, PartialEq, Eq, Structural)]
pub enum CullingMode {
    Automatic,
    AlwaysSimulate,
    PauseAndCatchup,
    Pause,
}

/// How a force module's values act on particles.
#[derive(Debug, Clone, Copy, PartialEq, Eq, Structural)]
pub enum ForceMode {
    Force,
    Acceleration,
    Impulse,
    VelocityChange,
}

/// What particles collide with.
#[derive(Debug, Clone, Copy, PartialEq, Eq, Structural)]
pub enum CollisionType {
    Planes,
    World,
}

/// Dimensionality of collisions.
#[derive(Debug, Clone, Copy, PartialEq, Eq, Structural)]
pub enum CollisionMode {
    Collision2D,
    Collision3D,
}

/// How trails are formed.
#[derive(Debug, Clone, Copy, PartialEq, Eq, Structural)]
pub enum TrailMode {
    PerParticle,
    Ribbon,
}

/// How a trail's texture is laid along it.
#[derive(Debug, Clone, Copy, PartialEq, Eq, Structural)]
pub enum TrailTextureMode {
    Stretch,
    Tile,
    DistributedPerSegment,
    RepeatPerSegment,
}

/// How particles are drawn; `Hidden` draws nothing.
#[derive(Debug, Clone, Copy, PartialEq, Eq, Structural)]
pub enum RenderMode {
    Billboard,
    StretchedBillboard,
    HorizontalBillboard,
    VerticalBillboard,
    Mesh,
    Hidden,
}

/// Orientation of billboards.
#[derive(Debug, Clone, Copy, PartialEq, Eq, Structural)]
pub enum BillboardAlignment {
    View,
    World,
    Local,
    Facing,
    Velocity,
}

/// Draw order of particles; `Unsorted` keeps emission order.
#[derive(Debug, Clone, Copy, PartialEq, Eq, Structural)]
pub enum SortMode {
    Unsorted,
    ByDistance,
    OldestInFront,
    YoungestInFront,
}

/// Tabs of the particle editor.
#[derive(Debug, Clone, Copy, PartialEq, Eq, Structural)]
pub enum ParticleEditorTab {
    Emitter,
    Modules,
    Preview,
    Timeline,
    Curves,
    Gradient,
}

/// What the preview colours particles by.
#[derive(Debug, Clone, Copy, PartialEq, Eq, Structural)]
pub enum ParticlePreviewMode {
    Solid,
    Wireframe,
    Velocity,
    Age,
    Count,
}

/// Removes system `idx` from the editor's list when it exists. When the
/// removed system was the selected one, the selection moves to the first
/// remaining system, or to none when the list is now empty; any other
/// selection is kept as it is.
pub fn remove_system<T>(systems: &mut Vec<T>, selected: &mut Option<usize>, idx: usize)
    ensures
        idx < old(systems)@.len() ==> final(systems)@ == old(systems)@.remove(idx as int),
        idx >= old(systems)@.len() ==> final(systems)@ == old(systems)@,
        *final(selected) == (if idx < old(systems)@.len() && *old(selected) == Some(idx) {
            if old(systems)@.len() == 1 {
                None
            } else {
                Some(0usize)
            }
        } else {
            *old(selected)
        }),
{
    if idx < systems.len() {
        systems.remove(idx);
        if *selected == Some(idx) {
            *selected = if systems.len() == 0 {
                None
            } else {
                Some(0)
            };
        }
    }
}

/// Where a duplicate of system `idx` goes in a list of `len` systems whose
/// id counter is `next_id`: `None` when there is no such system; otherwise
/// the copy takes the counter's value as its id, the counter advances, and
/// the copy's index is the end of the list.
pub fn duplicate_slot(len: usize, idx: usize, next_id: &mut u64) -> (r: Option<(u64, usize)>)
    requires
        idx < len ==> *old(next_id) < u64::MAX,
    ensures
        idx >= len ==> r is None && *final(next_id) == *old(next_id),
        idx < len ==> r == Some((*old(next_id), len)) && *final(next_id) == *old(next_id) + 1,
{
    if idx >= len {
        return None;
    }
    let id = *next_id;
    *next_id = id + 1;
    Some((id, len))
}

/// The name given to a duplicate of the system named `name`.
pub fn copy_name(name: &str) -> (r: String)
    ensures
        r@ == name@ + "_copy"@,
{
    name.to_owned().concat("_copy")
}


/// What `str::to_lowercase` gives for a string: each character lowercased
/// by Unicode's rules.
pub uninterp spec fn lowercase_of(s: Seq<char>) -> Seq<char>;

/// `str::to_lowercase`: the contract names its result, which depends on
/// the characters alone; Unicode's case tables are not restated here.
#[verifier::external_body]
pub(crate) fn to_lowercase(s: &str) -> (r: String)
    ensures
        r@ == lowercase_of(s@),
{
    s.to_lowercase()
}

/// Whether `needle` occurs in `hay` as a run of consecutive characters.
pub open spec fn occurs_in(needle: Seq<char>, hay: Seq<char>) -> bool {
    exists|i: int| 0 <= i <= hay.len() - needle.len() && #[trigger] hay.subrange(i, i + needle.len()) == needle
}

/// The characters of `s`, in order.
pub(crate) fn chars_of(s: &str) -> (r: Vec<char>)
    ensures
        r@ == s@,
{
    let n = s.unicode_len();
    let mut out: Vec<char> = Vec::new();
    let mut i: usize = 0;
    while i < n
        invariant
            n == s@.len(),
            i <= n,
            out@ == s@.take(i as int),
        decreases n - i,
    {
        out.push(s.get_char(i));
        proof {
            assert(s@.take(i + 1) == s@.take(i as int).push(s@[i as int]));
        }
        i += 1;
    }
    proof {
        assert(s@.take(n as int) == s@);
    }
    out
}

/// Whether `needle` occurs in `hay` as a run of consecutive characters, as
/// `str::contains` with a string pattern answers it.
fn str_contains(hay: &str, needle: &str) -> (r: bool)
    ensures
        r == occurs_in(needle@, hay@),
{
    let h = chars_of(hay);
    let nd = chars_of(needle);
    let m = nd.len();
    if m > h.len() {
        return false;
    }
    let last = h.len() - m;
    let mut i: usize = 0;
    loop
        invariant
            h@ == hay@,
            nd@ == needle@,
            m == nd@.len(),
            m <= h@.len(),
            h@.len() == h.len(),
            last == h@.len() - m,
            i <= last,
            forall|j: int| 0 <= j < i ==> #[trigger] h@.subrange(j, j + m) != nd@,
        decreases last - i,
    {
        let mut k: usize = 0;
        let mut same = true;
        while k < m
            invariant
                h@ == hay@,
                nd@ == needle@,
                m == nd@.len(),
                i <= last,
                h@.len() == h.len(),
                last == h@.len() - m,
                k <= m,
                same == forall|t: int| 0 <= t < k ==> h@[i + t] == nd@[t],
            decreases m - k,
        {
            if h[i + k] != nd[k] {
                same = false;
            }
            k += 1;
        }
        if same {
            proof {
                assert(h@.subrange(i as int, i + m) =~= nd@);
            }
            return true;
        }
        proof {
            let t = choose|t: int| 0 <= t < m && h@[i + t] != nd@[t];
            assert(h@.subrange(i as int, i + m)[t] != nd@[t]);
        }
        if i == last {
            proof {
                assert forall|j: int| 0 <= j <= hay@.len() - needle@.len() implies #[trigger] hay@.subrange(
                    j,
                    j + needle@.len(),
                ) != needle@ by {
                    if j < i {
                        assert(h@.subrange(j, j + m) != nd@);
                    }
                }
            }
            return false;
        }
        i += 1;
    }
}

/// Whether a system with this name and these tags matches the lowercased
/// query `q`: its lowercased name, or one of its lowercased tags, holds `q`.
pub open spec fn system_matches(name: Seq<char>, tags: Seq<String>, q: Seq<char>) -> bool {
    occurs_in(q, lowercase_of(name)) || exists|t: int| 0 <= t < tags.len() && occurs_in(q, lowercase_of(#[trigger] tags[t]@))
}

fn any_tag_matches(tags: &Vec<String>, q: &str) -> (r: bool)
    ensures
        r == exists|t: int| 0 <= t < tags@.len() && occurs_in(q@, lowercase_of(#[trigger] tags@[t]@)),
{
    let mut k: usize = 0;
    while k < tags.len()
        invariant
            k <= tags@.len(),
            forall|t: int| 0 <= t < k ==> !occurs_in(q@, lowercase_of(#[trigger] tags@[t]@)),
        decreases tags@.len() - k,
    {
        let lowered = to_lowercase(tags[k].as_str());
        if str_contains(lowered.as_str(), q) {
            return true;
        }
        k += 1;
    }
    false
}

/// The indices a search for `query` returns over systems with these names
/// and tag lists.
pub open spec fn search_result(names: Seq<String>, tags: Seq<Vec<String>>, query: Seq<char>) -> Seq<usize> {
    Seq::new(names.len(), |i: int| i as usize).filter(
        |i: usize| system_matches(names[i as int]@, tags[i as int]@, lowercase_of(query)),
    )
}

/// A search returns system `i` exactly when its lowercased name, or any one
/// of its lowercased tags wherever it stands in the list, contains the
/// lowercased query.
pub proof fn lemma_search_result_members(names: Seq<String>, tags: Seq<Vec<String>>, query: Seq<char>, i: usize)
    requires
        names.len() == tags.len(),
    ensures
        search_result(names, tags, query).contains(i) <==> (i < names.len() && (occurs_in(
            lowercase_of(query),
            lowercase_of(names[i as int]@),
        ) || exists|t: int|
            0 <= t < tags[i as int]@.len() && occurs_in(lowercase_of(query), lowercase_of(#[trigger] tags[i as int]@[t]@)))),
{
    broadcast use vstd::seq_lib::group_filter_ensures;

    let all = Seq::new(names.len(), |k: int| k as usize);
    let pred = |k: usize| system_matches(names[k as int]@, tags[k as int]@, lowercase_of(query));
    if search_result(names, tags, query).contains(i) {
        let j = choose|j: int| 0 <= j < all.filter(pred).len() && all.filter(pred)[j] == i;
        assert(pred(all.filter(pred)[j]));
        all.lemma_filter_contains_rev(pred, i);
        let k = choose|k: int| 0 <= k < all.len() && all[k] == i;
    }
    if i < names.len() && pred(i) {
        all.lemma_filter_contains(pred, i as int);
        assert(all[i as int] == i);
    }
}

/// A search lists each system at most once, in increasing order.
pub proof fn lemma_search_result_ascending(names: Seq<String>, tags: Seq<Vec<String>>, query: Seq<char>)
    requires
        names.len() <= usize::MAX,
    ensures
        forall|a: int, b: int|
            0 <= a < b < search_result(names, tags, query).len() ==> #[trigger] search_result(names, tags, query)[a]
                < #[trigger] search_result(names, tags, query)[b],
{
    let all = Seq::new(names.len(), |k: int| k as usize);
    let pred = |k: usize| system_matches(names[k as int]@, tags[k as int]@, lowercase_of(query));
    assert forall|a: int, b: int| 0 <= a < b < all.len() implies #[trigger] all[a] < #[trigger] all[b] by {}
    lemma_filter_keeps_ascending(all, pred);
}

/// Filtering a strictly increasing sequence keeps it strictly increasing.
proof fn lemma_filter_keeps_ascending(s: Seq<usize>, pred: spec_fn(usize) -> bool)
    requires
        forall|a: int, b: int| 0 <= a < b < s.len() ==> #[trigger] s[a] < #[trigger] s[b],
    ensures
        forall|a: int, b: int| 0 <= a < b < s.filter(pred).len() ==> #[trigger] s.filter(pred)[a] < #[trigger] s.filter(pred)[b],
    decreases s.len(),
{
    reveal(Seq::filter);
    if s.len() > 0 {
        let init = s.drop_last();
        assert forall|a: int, b: int| 0 <= a < b < init.len() implies #[trigger] init[a] < #[trigger] init[b] by {
            assert(init[a] == s[a] && init[b] == s[b]);
        }
        lemma_filter_keeps_ascending(init, pred);
        let f = init.filter(pred);
        if pred(s.last()) {
            assert(s.filter(pred) == f.push(s.last()));
            assert forall|a: int| 0 <= a < f.len() implies #[trigger] f[a] < s.last() by {
                init.lemma_filter_contains_rev(pred, f[a]);
                let k = choose|k: int| 0 <= k < init.len() && init[k] == f[a];
                assert(s[k] == init[k]);
            }
        } else {
            assert(s.filter(pred) == f);
        }
    }
}

/// Indices, ascending, of the systems whose name or one of whose tags
/// contains the query, ignoring case (`names[i]` and `tags[i]` describe system `i`).
pub fn search_systems(names: &[String], tags: &[Vec<String>], query: &str) -> (r: Vec<usize>)
    requires
        names@.len() == tags@.len(),
    ensures
        r@ == Seq::new(names@.len(), |i: int| i as usize).filter(
            |i: usize| system_matches(names@[i as int]@, tags@[i as int]@, lowercase_of(query@)),
        ),
        r@ == search_result(names@, tags@, query@),
{
    let q = to_lowercase(query);
    let ghost pred = |i: usize| system_matches(names@[i as int]@, tags@[i as int]@, lowercase_of(query@));
    let ghost all = Seq::new(names@.len(), |i: int| i as usize);
    let mut r: Vec<usize> = Vec::new();
    let mut i: usize = 0;
    while i < names.len()
        invariant
            i <= names@.len(),
            names@.len() == tags@.len(),
            q@ == lowercase_of(query@),
            all == Seq::new(names@.len(), |i: int| i as usize),
            pred == (|i: usize| system_matches(names@[i as int]@, tags@[i as int]@, lowercase_of(query@))),
            r@ == all.take(i as int).filter(pred),
        decreases names@.len() - i,
    {
        let name_lower = to_lowercase(names[i].as_str());
        let hit = str_contains(name_lower.as_str(), q.as_str()) || any_tag_matches(&tags[i], q.as_str());
        assert(all.take(i + 1) =~= all.take(i as int).push(i));
        proof {
            all.take(i as int).lemma_filter_push(i, pred);
        }
        if hit {
            r.push(i);
        }
        i += 1;
    }
    assert(all.take(names@.len() as int) =~= all);
    r
}

} // verus!
