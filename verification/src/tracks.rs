//! Station tracks of the skimmer view.
//!
//! A track is one station followed across slots, keyed by the sender's
//! callsign: the rule that PSK Reporter spotting uses, so the two never
//! disagree on who sent a message. A QSO between two stations is two tracks,
//! each steady at its own frequency. A message with no recognisable sender is
//! grouped by its raw text.

use vstd::prelude::*;
use crate::decoder::Decode;
use crate::pskreporter::sender_callsign;

verus! {

/// One station's decodes.
pub struct StationTrack {
    /// The sender's callsign, or the raw text of a message without one.
    pub key: String,
    /// Indices of the decodes, in time order.
    pub members: Vec<usize>,
}

/// What a track holds.
#[verifier::ext_equal]
pub struct TrackData {
    pub key: Seq<char>,
    pub members: Seq<usize>,
}

impl View for StationTrack {
    type V = TrackData;

    open spec fn view(&self) -> TrackData {
        TrackData { key: self.key@, members: self.members@ }
    }
}

/// What a message is grouped by.
pub open spec fn key_of(message: Seq<char>) -> Seq<char> {
    match crate::pskreporter::sender_of(message) {
        Some(call) => call,
        None => message,
    }
}

/// Decode `i` falls into slot `oldest` or a later one.
pub open spec fn in_view<F>(decodes: Seq<Decode<F>>, oldest: i64, i: int) -> bool {
    crate::time::slot_index(decodes[i].utc.secs as int) >= oldest
}

/// Decode `i` comes before decode `j` on a track: it is earlier, or as early
/// and before it in the list.
pub open spec fn comes_before<F>(decodes: Seq<Decode<F>>, i: int, j: int) -> bool {
    ||| decodes[i].utc.secs < decodes[j].utc.secs
    ||| decodes[i].utc.secs == decodes[j].utc.secs && i < j
}

/// Track `t` holds decodes of its station alone, in order.
pub open spec fn is_track<F>(
    decodes: Seq<Decode<F>>,
    end: int,
    oldest: i64,
    t: TrackData,
) -> bool {
    &&& t.members.len() > 0
    &&& forall|a: int|
        0 <= a < t.members.len() ==> {
            &&& (#[trigger] t.members[a]) < end
            &&& in_view(decodes, oldest, t.members[a] as int)
            &&& key_of(decodes[t.members[a] as int]@.message) == t.key
        }
    &&& forall|a: int, b: int|
        0 <= a < b < t.members.len() ==> comes_before(
            decodes,
            (#[trigger] t.members[a]) as int,
            (#[trigger] t.members[b]) as int,
        )
}

/// Some track holds decode `i`.
pub open spec fn is_held(tracks: Seq<TrackData>, i: int) -> bool {
    exists|t: int|
        0 <= t < tracks.len() && (#[trigger] tracks[t]).members.contains(i as usize)
}

/// `tracks` are the stations heard in the first `end` decodes, in slot
/// `oldest` or later: one track each, and no decode left out.
pub open spec fn is_grouping<F>(
    decodes: Seq<Decode<F>>,
    end: int,
    oldest: i64,
    tracks: Seq<TrackData>,
) -> bool {
    &&& forall|t: int| 0 <= t < tracks.len() ==> is_track(decodes, end, oldest, #[trigger] tracks[t])
    &&& forall|t: int, u: int|
        0 <= t < u < tracks.len() ==> (#[trigger] tracks[t]).key != (#[trigger] tracks[u]).key
    &&& forall|i: int|
        0 <= i < end && #[trigger] in_view(decodes, oldest, i) ==> is_held(tracks, i)
}

/// What a message is grouped by.
pub fn track_key(message: &str) -> (key: String)
    ensures
        key@ == key_of(message@),
{
    match sender_callsign(message) {
        Some(call) => call,
        None => message.to_owned(),
    }
}

/// Puts decode `i`, the last so far, in its place on a track.
fn insert_member<F>(members: &mut Vec<usize>, decodes: &[Decode<F>], i: usize)
    requires
        i < decodes@.len(),
        forall|a: int| 0 <= a < old(members)@.len() ==> (#[trigger] old(members)@[a]) < i,
        forall|a: int, b: int|
            0 <= a < b < old(members)@.len() ==> comes_before(
                decodes@,
                (#[trigger] old(members)@[a]) as int,
                (#[trigger] old(members)@[b]) as int,
            ),
    ensures
        exists|at: int|
            0 <= at <= old(members)@.len() && final(members)@ == #[trigger] old(members)@.insert(
                at,
                i,
            ),
        forall|a: int, b: int|
            0 <= a < b < final(members)@.len() ==> comes_before(
                decodes@,
                (#[trigger] final(members)@[a]) as int,
                (#[trigger] final(members)@[b]) as int,
            ),
{
    let ghost before = members@;
    let secs: i64 = decodes[i].utc.secs;
    let mut at: usize = members.len();
    while at > 0 && decodes[members[at - 1]].utc.secs > secs
        invariant
            at <= members@.len(),
            members@ == before,
            i < decodes@.len(),
            secs == decodes@[i as int].utc.secs,
            forall|a: int| 0 <= a < before.len() ==> (#[trigger] before[a]) < i,
            forall|a: int|
                at <= a < before.len() ==> decodes@[(#[trigger] before[a]) as int].utc.secs > secs,
        decreases at,
    {
        at -= 1;
    }
    members.insert(at, i);
    proof {
        let post = members@;
        assert(post == before.insert(at as int, i));
        assert forall|a: int| 0 <= a < at implies comes_before(
            decodes@,
            (#[trigger] before[a]) as int,
            i as int,
        ) by {
            if a < at - 1 {
                assert(comes_before(decodes@, before[a] as int, before[at - 1] as int));
            }
        }
        assert forall|a: int, b: int| 0 <= a < b < post.len() implies comes_before(
            decodes@,
            (#[trigger] post[a]) as int,
            (#[trigger] post[b]) as int,
        ) by {
            let x = if a < at {
                a
            } else {
                a - 1
            };
            let y = if b < at {
                b
            } else {
                b - 1
            };
            if a != at && b != at {
                assert(comes_before(decodes@, before[x] as int, before[y] as int));
            }
        }
    }
}

/// Index of the track with this key, or the length.
fn find_track(tracks: &Vec<StationTrack>, key: &String) -> (t: usize)
    ensures
        t <= tracks@.len(),
        t < tracks@.len() ==> tracks@[t as int].key@ == key@,
        t == tracks@.len() ==> forall|u: int|
            0 <= u < tracks@.len() ==> (#[trigger] tracks@[u]).key@ != key@,
{
    let mut t: usize = 0;
    while t < tracks.len()
        invariant
            t <= tracks@.len(),
            forall|u: int| 0 <= u < t ==> (#[trigger] tracks@[u]).key@ != key@,
        decreases tracks@.len() - t,
    {
        if tracks[t].key == *key {
            return t;
        }
        t += 1;
    }
    t
}

/// What the tracks hold.
pub open spec fn held(tracks: Seq<StationTrack>) -> Seq<TrackData> {
    tracks.map_values(|t: StationTrack| t@)
}

/// Takes decode `i`, the next in the list, into the tracks.
fn take_in<F>(tracks: &mut Vec<StationTrack>, decodes: &[Decode<F>], oldest: i64, i: usize)
    requires
        i < decodes@.len(),
        in_view(decodes@, oldest, i as int),
        is_grouping(decodes@, i as int, oldest, held(old(tracks)@)),
    ensures
        is_grouping(decodes@, i + 1, oldest, held(final(tracks)@)),
{
    let ghost before = held(tracks@);
    let key = track_key(decodes[i].message.as_str());
    let ghost name = key@;
    assert forall|u: int| 0 <= u < tracks@.len() implies #[trigger] before[u]
        == tracks@[u]@ by {}
    let t: usize = find_track(tracks, &key);
    if t < tracks.len() {
        assert(is_track(decodes@, i as int, oldest, before[t as int]));
        let ghost was = before[t as int].members;
        insert_member(&mut tracks[t].members, decodes, i);
        proof {
            let post = held(tracks@);
            let at = choose|at: int|
                0 <= at <= was.len() && post[t as int].members == #[trigger] was.insert(at, i);
            assert(post[t as int].members == was.insert(at, i));
            assert(post == before.update(t as int, post[t as int]));
            let now = post[t as int].members;
            assert(now[at] == i);
            assert forall|a: int| 0 <= a < now.len() implies {
                &&& (#[trigger] now[a]) < i + 1
                &&& in_view(decodes@, oldest, now[a] as int)
                &&& key_of(decodes@[now[a] as int]@.message) == post[t as int].key
            } by {
                if a < at {
                    assert(now[a] == was[a]);
                } else if a > at {
                    assert(now[a] == was[a - 1]);
                }
            }
            assert(is_track(decodes@, i + 1, oldest, post[t as int]));
            assert forall|u: int| 0 <= u < post.len() implies is_track(
                decodes@,
                i + 1,
                oldest,
                #[trigger] post[u],
            ) by {
                if u != t {
                    assert(is_track(decodes@, i as int, oldest, before[u]));
                }
            }
            assert forall|j: int| 0 <= j < i + 1 && #[trigger] in_view(decodes@, oldest, j) implies is_held(
                post,
                j,
            ) by {
                if j == i {
                    assert(post[t as int].members.contains(i));
                } else {
                    assert(is_held(before, j));
                    let u = choose|u: int|
                        0 <= u < before.len() && (#[trigger] before[u]).members.contains(
                            j as usize,
                        );
                    if u == t {
                        let k = was.index_of(j as usize);
                        if k < at {
                            assert(now[k] == j);
                        } else {
                            assert(now[k + 1] == j);
                        }
                        assert(post[t as int].members.contains(j as usize));
                    } else {
                        assert(post[u].members.contains(j as usize));
                    }
                }
            }
        }
    } else {
        let mut members: Vec<usize> = Vec::new();
        members.push(i);
        let fresh = StationTrack { key, members };
        let ghost data = fresh@;
        tracks.push(fresh);
        proof {
            let post = held(tracks@);
            assert(post == before.push(data));
            assert(data.members == seq![i]);
            assert(is_track(decodes@, i + 1, oldest, data));
            assert forall|u: int| 0 <= u < post.len() implies is_track(
                decodes@,
                i + 1,
                oldest,
                #[trigger] post[u],
            ) by {
                if u < before.len() {
                    assert(is_track(decodes@, i as int, oldest, before[u]));
                }
            }
            assert forall|j: int| 0 <= j < i + 1 && #[trigger] in_view(decodes@, oldest, j) implies is_held(
                post,
                j,
            ) by {
                if j == i {
                    assert(data.members[0] == i);
                    assert(post[before.len() as int].members.contains(i));
                } else {
                    assert(is_held(before, j));
                    let u = choose|u: int|
                        0 <= u < before.len() && (#[trigger] before[u]).members.contains(
                            j as usize,
                        );
                    assert(post[u].members.contains(j as usize));
                }
            }
        }
    }
}

/// Groups the decodes in slot `oldest` and later into one track per station.
pub fn group_tracks<F>(decodes: &[Decode<F>], oldest: i64) -> (tracks: Vec<StationTrack>)
    ensures
        is_grouping(decodes@, decodes@.len() as int, oldest, held(tracks@)),
{
    let mut tracks: Vec<StationTrack> = Vec::new();
    let mut i: usize = 0;
    while i < decodes.len()
        invariant
            i <= decodes@.len(),
            is_grouping(decodes@, i as int, oldest, held(tracks@)),
        decreases decodes@.len() - i,
    {
        if decodes[i].utc.slot() >= oldest {
            take_in(&mut tracks, decodes, oldest, i);
        } else {
            proof {
                let now = held(tracks@);
                assert(!in_view(decodes@, oldest, i as int));
                assert forall|t: int| 0 <= t < now.len() implies is_track(
                    decodes@,
                    i + 1,
                    oldest,
                    #[trigger] now[t],
                ) by {
                    assert(is_track(decodes@, i as int, oldest, now[t]));
                }
            }
        }
        i += 1;
    }
    tracks
}

/// No decode is on two tracks.
pub proof fn lemma_one_track_per_decode<F>(
    decodes: Seq<Decode<F>>,
    end: int,
    oldest: i64,
    tracks: Seq<TrackData>,
    t: int,
    u: int,
    i: usize,
)
    requires
        is_grouping(decodes, end, oldest, tracks),
        0 <= t < tracks.len(),
        0 <= u < tracks.len(),
        tracks[t].members.contains(i),
        tracks[u].members.contains(i),
    ensures
        t == u,
{
    let a = tracks[t].members.index_of(i);
    let b = tracks[u].members.index_of(i);
    assert(is_track(decodes, end, oldest, tracks[t]));
    assert(is_track(decodes, end, oldest, tracks[u]));
    assert(tracks[t].members[a] == i && tracks[u].members[b] == i);
    if t < u {
        assert(tracks[t].key != tracks[u].key);
    } else if u < t {
        assert(tracks[u].key != tracks[t].key);
    }
}

/// Spotting and track grouping agree on who sent a message: where a message
/// gives rise to a spot, its track is that station's.
pub proof fn lemma_track_is_the_spotted_station(message: Seq<char>)
    ensures
        crate::pskreporter::spot_of(message) matches Some((call, _)) ==> key_of(message) == call,
{
}

// ---- labels --------------------------------------------------------------

/// Label `i` is placed before label `j`: it wants to be higher up, or just as
/// high and comes first.
pub open spec fn is_above(keys: Seq<u32>, i: int, j: int) -> bool {
    keys[i] < keys[j] || (keys[i] == keys[j] && i < j)
}

/// `order` lists the first `end` labels from the topmost down.
pub open spec fn is_top_down(keys: Seq<u32>, end: int, order: Seq<usize>) -> bool {
    &&& order.len() == end
    &&& forall|a: int| 0 <= a < order.len() ==> (#[trigger] order[a]) < end
    &&& forall|a: int, b: int|
        0 <= a < b < order.len() ==> is_above(
            keys,
            (#[trigger] order[a]) as int,
            (#[trigger] order[b]) as int,
        )
    &&& forall|i: usize| 0 <= i < end ==> #[trigger] order.contains(i)
}

/// The order in which labels are placed, from the topmost down, given the
/// order keys of where each wants to be.
pub fn top_down(keys: &[u32]) -> (order: Vec<usize>)
    ensures
        is_top_down(keys@, keys@.len() as int, order@),
{
    let mut order: Vec<usize> = Vec::new();
    let mut i: usize = 0;
    while i < keys.len()
        invariant
            i <= keys@.len(),
            is_top_down(keys@, i as int, order@),
        decreases keys@.len() - i,
    {
        let ghost before = order@;
        let mut at: usize = order.len();
        while at > 0 && keys[order[at - 1]] > keys[i]
            invariant
                i < keys@.len(),
                at <= order@.len(),
                order@ == before,
                is_top_down(keys@, i as int, before),
                forall|a: int|
                    at <= a < before.len() ==> keys@[(#[trigger] before[a]) as int]
                        > keys@[i as int],
            decreases at,
        {
            at -= 1;
        }
        order.insert(at, i);
        proof {
            let post = order@;
            assert(post == before.insert(at as int, i));
            assert forall|a: int| 0 <= a < at implies is_above(
                keys@,
                (#[trigger] before[a]) as int,
                i as int,
            ) by {
                if a < at - 1 {
                    assert(is_above(keys@, before[a] as int, before[at - 1] as int));
                }
            }
            assert forall|a: int, b: int| 0 <= a < b < post.len() implies is_above(
                keys@,
                (#[trigger] post[a]) as int,
                (#[trigger] post[b]) as int,
            ) by {
                let x = if a < at {
                    a
                } else {
                    a - 1
                };
                let y = if b < at {
                    b
                } else {
                    b - 1
                };
                if a != at && b != at {
                    assert(is_above(keys@, before[x] as int, before[y] as int));
                }
            }
            assert forall|j: usize| 0 <= j < i + 1 implies #[trigger] post.contains(j) by {
                if j == i {
                    assert(post[at as int] == i);
                } else {
                    assert(before.contains(j));
                    let k = before.index_of(j);
                    if k < at {
                        assert(post[k] == j);
                    } else {
                        assert(post[k + 1] == j);
                    }
                }
            }
        }
        i += 1;
    }
    order
}

/// Placing the labels that want to be at `wants`, one below the other, can
/// give the positions `placed`; `top` is where the one above the first is.
pub open spec fn is_placing<F, P: Fn(F, F) -> F>(
    wants: Seq<F>,
    top: F,
    place: P,
    placed: Seq<F>,
) -> bool {
    &&& placed.len() == wants.len()
    &&& forall|k: int|
        0 <= k < placed.len() ==> call_ensures(
            place,
            (
                if k == 0 {
                    top
                } else {
                    placed[k - 1]
                },
                wants[k],
            ),
            #[trigger] placed[k],
        )
}

/// Pushes labels apart so that their rows do not overlap. `place` gives the
/// position of a label from that of the one above it and its own wish.
pub fn place_labels<F: Copy, P: Fn(F, F) -> F>(wants: &[F], top: F, place: P) -> (placed: Vec<F>)
    requires
        forall|a: F, b: F| call_requires(place, (a, b)),
    ensures
        is_placing(wants@, top, place, placed@),
{
    let mut placed: Vec<F> = Vec::new();
    let mut last: F = top;
    let mut k: usize = 0;
    while k < wants.len()
        invariant
            k <= wants@.len(),
            forall|a: F, b: F| call_requires(place, (a, b)),
            last == if k == 0 {
                top
            } else {
                placed@[k - 1]
            },
            is_placing(wants@.take(k as int), top, place, placed@),
        decreases wants@.len() - k,
    {
        let y: F = place(last, wants[k]);
        let ghost before = placed@;
        placed.push(y);
        proof {
            let done = wants@.take(k + 1);
            assert forall|j: int| 0 <= j < placed@.len() implies call_ensures(
                place,
                (
                    if j == 0 {
                        top
                    } else {
                        placed@[j - 1]
                    },
                    done[j],
                ),
                #[trigger] placed@[j],
            ) by {
                if j < k {
                    assert(placed@[j] == before[j]);
                    assert(done[j] == wants@.take(k as int)[j]);
                }
            }
        }
        last = y;
        k += 1;
    }
    assert(wants@.take(k as int) == wants@);
    placed
}

/// Labels never overlap: whatever `clear` means of two positions, if `place`
/// always puts a label clear of the one above it, each is clear of the next.
pub proof fn lemma_labels_are_apart<F, P: Fn(F, F) -> F>(
    wants: Seq<F>,
    top: F,
    place: P,
    placed: Seq<F>,
    clear: spec_fn(F, F) -> bool,
    k: int,
)
    requires
        is_placing(wants, top, place, placed),
        forall|above: F, want: F, y: F| #[trigger]
            call_ensures(place, (above, want), y) ==> clear(above, y),
        0 <= k,
        k + 1 < placed.len(),
    ensures
        clear(placed[k], placed[k + 1]),
{
    assert(call_ensures(place, (placed[k], wants[k + 1]), placed[k + 1]));
}

} // verus!
