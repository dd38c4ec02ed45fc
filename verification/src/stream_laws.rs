//! What holds of a guard whatever text it is fed, and in whatever pieces.
use vstd::prelude::*;
use vstd::string::*;
use vstd::utf8::*;

use crate::markers;
use crate::offsets;
use crate::parse;
use crate::parse::ParsedModel;
use crate::search;
use crate::stream;
use crate::stream::GuardState;
use crate::stream::SentinelScan;
use crate::text_laws;
use crate::trim;

verus! {

/// The pieces, one after the other.
pub open spec fn joined(pieces: Seq<Seq<char>>) -> Seq<char>
    decreases pieces.len(),
{
    if pieces.len() == 0 {
        Seq::empty()
    } else {
        joined(pieces.drop_last()) + pieces.last()
    }
}

/// What a guard does with one piece of text after the other: its state afterwards, and all that
/// it let through.
pub open spec fn feed_all(state: GuardState, pieces: Seq<Seq<char>>) -> (GuardState, Seq<char>)
    decreases pieces.len(),
{
    if pieces.len() == 0 {
        (state, Seq::empty())
    } else {
        let (before, passed) = feed_all(state, pieces.drop_last());
        let (after, out) = stream::feed(before, pieces.last());
        (after, passed + out)
    }
}

/// The trigger markers are tag-like.
pub proof fn lemma_triggers_tag_like()
    ensures
        forall|k: int|
            0 <= k < markers::triggers().len() ==> search::tag_like(#[trigger] markers::triggers()[k]),
{
    reveal_strlit("\x3cantml:function_calls");
    reveal_strlit("<function_calls");
    reveal_strlit("\x3cantml:invoke");
    reveal_strlit("<invoke");
    assert forall|k: int| 0 <= k < markers::triggers().len() implies search::tag_like(
        #[trigger] markers::triggers()[k],
    ) by {
        assert(markers::triggers()[k] == markers::TRIGGER_MARKERS@[k]@);
    }
}

/// Feeding `a` and then `b` is feeding `a + b`.
proof fn lemma_feed_twice(a: Seq<char>, b: Seq<char>)
    ensures
        ({
            let (middle, out1) = stream::feed(stream::fresh(true), a);
            let (end, out2) = stream::feed(middle, b);
            stream::feed(stream::fresh(true), a + b) == (end, out1 + out2)
        }),
{
    let t = markers::triggers();
    let ab = a + b;
    lemma_triggers_tag_like();
    assert(Seq::<char>::empty() + a == a);
    assert(Seq::<char>::empty() + ab == ab);
    search::lemma_first_of_any(a, t);
    match search::first_of_any(a, t) {
        Some((p, n)) => {
            let k = choose|k: int|
                0 <= k < t.len() && n == (#[trigger] t[k]).len() && search::occurs_at(a, t[k], p);
            search::lemma_occurs_extends(a, b, t[k], p);
            assert(search::any_occurs_at(ab, t, p));
            assert forall|j: int| 0 <= j < p implies !search::any_occurs_at(ab, t, j) by {
                if search::any_occurs_at(ab, t, j) {
                    let m = choose|m: int|
                        0 <= m < t.len() && search::occurs_at(ab, #[trigger] t[m], j);
                    search::lemma_occurs_extends(a, b, t[m], j);
                    if j + t[m].len() <= a.len() {
                        assert(search::any_occurs_at(a, t, j));
                    } else {
                        search::lemma_occurrence_starts_with_angle(a, t, k, p);
                        search::lemma_occurrence_starts_with_angle(ab, t, m, j);
                        assert(ab[p] == a[p]);
                    }
                }
            }
            search::lemma_first_of_any_is(ab, t, p);
            assert(ab.take(p) =~= a.take(p) + Seq::<char>::empty());
            assert(ab.skip(p) =~= a.skip(p) + b);
        },
        None => {
            let o = stream::overlap_any(a, t);
            stream::lemma_overlap_any(a, t);
            let f = a.len() - o;
            let head = a.take(f);
            let tail = a.skip(f) + b;
            assert(ab =~= head + tail);
            assert forall|j: int| 0 <= j < head.len() implies !search::any_occurs_at(
                head + tail,
                t,
                j,
            ) by {
                if search::any_occurs_at(ab, t, j) {
                    let m = choose|m: int|
                        0 <= m < t.len() && search::occurs_at(ab, #[trigger] t[m], j);
                    search::lemma_occurs_extends(a, b, t[m], j);
                    if j + t[m].len() <= a.len() {
                        assert(search::any_occurs_at(a, t, j));
                    } else {
                        let c = a.len() - j;
                        assert(t[m] =~= ab.skip(j).subrange(0, t[m].len() as int));
                        assert(a.skip(j) =~= t[m].take(c));
                        assert(stream::is_overlap(a, t[m], c));
                    }
                }
            }
            search::lemma_first_of_any_after(head, tail, t);
            match search::first_of_any(tail, t) {
                Some((i, n)) => {
                    search::lemma_first_of_any(tail, t);
                    assert(ab.take(f + i) =~= head + tail.take(i));
                    assert(ab.skip(f + i) =~= tail.skip(i));
                },
                None => {
                    lemma_overlap_after(a, b, t);
                    let o2 = stream::overlap_any(tail, t);
                    stream::lemma_overlap_any(tail, t);
                    let f2 = tail.len() - o2;
                    assert(ab.take(f + f2) =~= head + tail.take(f2));
                    assert(ab.skip(f + f2) =~= tail.skip(f2));
                },
            }
        },
    }
}

/// What has to wait after `a + b` only depends on what waits after `a`, and on `b`.
proof fn lemma_overlap_after(a: Seq<char>, b: Seq<char>, needles: Seq<Seq<char>>)
    ensures
        stream::overlap_any(a + b, needles) == stream::overlap_any(
            a.skip(a.len() - stream::overlap_any(a, needles)) + b,
            needles,
        ),
{
    let o = stream::overlap_any(a, needles);
    stream::lemma_overlap_any(a, needles);
    let ab = a + b;
    let tail = a.skip(a.len() - o) + b;
    stream::lemma_overlap_any(ab, needles);
    stream::lemma_overlap_any(tail, needles);
    let x = stream::overlap_any(ab, needles);
    let y = stream::overlap_any(tail, needles);
    if x > 0 {
        let k = choose|k: int|
            0 <= k < needles.len() && stream::is_overlap(ab, #[trigger] needles[k], x);
        let n = needles[k];
        if x > tail.len() {
            let c = x - b.len();
            assert(a.skip(a.len() - c) =~= n.take(c)) by {
                assert(ab.skip(ab.len() - x) == n.take(x));
                assert forall|i: int| 0 <= i < c implies a.skip(a.len() - c)[i] == n.take(c)[i] by {
                    assert(ab.skip(ab.len() - x)[i] == n.take(x)[i]);
                }
            }
            assert(stream::is_overlap(a, n, c));
        } else {
            assert(tail.skip(tail.len() - x) =~= ab.skip(ab.len() - x));
            assert(stream::is_overlap(tail, n, x));
        }
    }
    if y > 0 {
        let k = choose|k: int|
            0 <= k < needles.len() && stream::is_overlap(tail, #[trigger] needles[k], y);
        assert(tail.skip(tail.len() - y) =~= ab.skip(ab.len() - y));
        assert(stream::is_overlap(ab, needles[k], y));
    }
}

/// It makes no difference in what pieces a guard gets its text: it is afterwards in the same
/// state, and has let the same text through, as if it had got all of it at once. In particular no
/// marker is missed because a piece ends inside it.
pub proof fn law_pieces_make_no_difference(enabled: bool, pieces: Seq<Seq<char>>)
    ensures
        feed_all(stream::fresh(enabled), pieces) == stream::feed(
            stream::fresh(enabled),
            joined(pieces),
        ),
    decreases pieces.len(),
{
    let start = stream::fresh(enabled);
    if pieces.len() == 0 {
        let none = Seq::<char>::empty();
        assert(none + none == none);
        lemma_no_angle_not_held(none);
        assert(none.skip(0) == none);
        assert(none.take(0) == none);
    } else {
        law_pieces_make_no_difference(enabled, pieces.drop_last());
        if enabled {
            lemma_feed_twice(joined(pieces.drop_last()), pieces.last());
        }
    }
}

/// Text without a `<` holds no marker and no start of one.
proof fn lemma_no_angle_not_held(text: Seq<char>)
    requires
        forall|i: int| 0 <= i < text.len() ==> #[trigger] text[i] != '<',
    ensures
        search::first_of_any(text, markers::triggers()) is None,
        stream::overlap_any(text, markers::triggers()) == 0,
{
    let t = markers::triggers();
    lemma_triggers_tag_like();
    assert forall|j: int| !search::any_occurs_at(text, t, j) by {
        if search::any_occurs_at(text, t, j) {
            let m = choose|m: int| 0 <= m < t.len() && search::occurs_at(text, #[trigger] t[m], j);
            search::lemma_occurrence_starts_with_angle(text, t, m, j);
        }
    }
    search::lemma_first_of_any_none(text, t);
    stream::lemma_overlap_any(text, t);
    let o = stream::overlap_any(text, t);
    if o > 0 {
        let k = choose|k: int| 0 <= k < t.len() && stream::is_overlap(text, #[trigger] t[k], o);
        assert(text.skip(text.len() - o)[0] == t[k].take(o)[0]);
    }
}

/// No text is lost, doubled or moved: what a guard let through, followed by what it holds, is
/// what it was fed. Taking the buffer, or the text that is still held back, at the end therefore
/// gives back exactly the text that was not let through.
pub proof fn law_nothing_is_lost(enabled: bool, pieces: Seq<Seq<char>>)
    ensures
        ({
            let (state, passed) = feed_all(stream::fresh(enabled), pieces);
            &&& passed + state.hold == joined(pieces)
            &&& passed + stream::buffer_taken(state).1 == joined(pieces)
            &&& !state.armed ==> passed + stream::unflushed_taken(state).1 == joined(pieces)
        }),
{
    let all = joined(pieces);
    law_pieces_make_no_difference(enabled, pieces);
    assert(Seq::<char>::empty() + all == all);
    search::lemma_first_of_any(all, markers::triggers());
    stream::lemma_overlap_any(all, markers::triggers());
    let (state, passed) = feed_all(stream::fresh(enabled), pieces);
    assert(passed + state.hold =~= all);
}

/// An enabled guard is armed exactly when the text that it was fed holds a marker, wherever the
/// pieces end. What it let through is then the text before the first marker, and its buffer
/// starts with that marker.
pub proof fn law_armed_by_the_first_marker(pieces: Seq<Seq<char>>)
    ensures
        ({
            let (state, passed) = feed_all(stream::fresh(true), pieces);
            match search::first_of_any(joined(pieces), markers::triggers()) {
                Some((p, _)) => {
                    &&& state.armed
                    &&& passed == joined(pieces).take(p)
                    &&& state.hold == joined(pieces).skip(p)
                },
                None => !state.armed,
            }
        }),
{
    law_pieces_make_no_difference(true, pieces);
    assert(Seq::<char>::empty() + joined(pieces) == joined(pieces));
}

/// Once armed, a guard stays armed, lets nothing through, and adds all text to its buffer.
pub proof fn law_armed_guard_buffers(state: GuardState, pieces: Seq<Seq<char>>)
    requires
        state.enabled,
        state.armed,
    ensures
        feed_all(state, pieces) == (
            GuardState { hold: state.hold + joined(pieces), ..state },
            Seq::<char>::empty(),
        ),
    decreases pieces.len(),
{
    if pieces.len() == 0 {
        assert(state.hold + joined(pieces) == state.hold);
    } else {
        law_armed_guard_buffers(state, pieces.drop_last());
        assert((state.hold + joined(pieces.drop_last())) + pieces.last() == state.hold + joined(
            pieces,
        ));
        assert(Seq::<char>::empty() + Seq::<char>::empty() == Seq::<char>::empty());
    }
}

/// A guard that is not enabled lets every text through as it comes, and holds nothing.
pub proof fn law_disabled_guard_passes_all(pieces: Seq<Seq<char>>)
    ensures
        feed_all(stream::fresh(false), pieces) == (stream::fresh(false), joined(pieces)),
    decreases pieces.len(),
{
    if pieces.len() > 0 {
        law_disabled_guard_passes_all(pieces.drop_last());
    }
}

/// Text without a `<` passes at once, and nothing of it is held back.
pub proof fn law_plain_text_passes(text: Seq<char>)
    requires
        forall|i: int| 0 <= i < text.len() ==> #[trigger] text[i] != '<',
    ensures
        stream::feed(stream::fresh(true), text) == (stream::fresh(true), text),
{
    lemma_no_angle_not_held(text);
    assert(Seq::<char>::empty() + text == text);
    assert(text.take(text.len() as int) == text);
    assert(text.skip(text.len() as int) == Seq::<char>::empty());
}

/// What an enabled guard that is not armed holds back is shorter than a marker, so it is never
/// more than the start of one.
pub proof fn law_little_is_held(pieces: Seq<Seq<char>>)
    ensures
        ({
            let (state, _) = feed_all(stream::fresh(true), pieces);
            !state.armed && state.hold.len() > 0 ==> exists|k: int|
                0 <= k < markers::triggers().len() && state.hold.len()
                    < markers::triggers()[k].len() && state.hold.is_prefix_of(
                    #[trigger] markers::triggers()[k],
                )
        }),
{
    let all = joined(pieces);
    let t = markers::triggers();
    law_pieces_make_no_difference(true, pieces);
    assert(Seq::<char>::empty() + all == all);
    let (state, _) = feed_all(stream::fresh(true), pieces);
    stream::lemma_overlap_any(all, t);
    let o = stream::overlap_any(all, t);
    if !state.armed && state.hold.len() > 0 {
        assert(o > 0);
        let k = choose|k: int| 0 <= k < t.len() && stream::is_overlap(all, #[trigger] t[k], o);
        assert(state.hold == t[k].take(o));
        assert(state.hold =~= t[k].subrange(0, o));
    }
}

/// Taking the buffer twice gives the text once: the second time it is empty, and nothing changes
/// any more. The same holds of the text that is still held back.
pub proof fn law_taking_twice_gives_once(state: GuardState)
    ensures
        ({
            let (emptied, _) = stream::buffer_taken(state);
            stream::buffer_taken(emptied) == (emptied, Seq::<char>::empty())
        }),
        ({
            let (emptied, _) = stream::unflushed_taken(state);
            stream::unflushed_taken(emptied) == (emptied, Seq::<char>::empty())
        }),
{
}

/// Streaming recovers what parsing the whole text recovers, in whatever pieces the text arrives:
/// the same calls from the buffer, and the same text before them from what was let through. Where
/// the whole text holds no tool call, the buffer holds none.
pub proof fn law_streaming_agrees_with_parsing(pieces: Seq<Seq<char>>)
    ensures
        ({
            let (state, passed) = feed_all(stream::fresh(true), pieces);
            match parse::parsed(joined(pieces)) {
                Some(found) => {
                    &&& state.armed
                    &&& parse::parsed(state.hold) == Some(
                        ParsedModel { prose: Seq::empty(), calls: found.calls },
                    )
                    &&& trim::trimmed(passed) == found.prose
                },
                None => parse::parsed(state.hold) is None,
            }
        }),
{
    let all = joined(pieces);
    let t = markers::triggers();
    law_armed_by_the_first_marker(pieces);
    let (state, passed) = feed_all(stream::fresh(true), pieces);
    search::lemma_first_of_any(all, t);
    match search::first_of_any(all, t) {
        Some((p, n)) => {
            let k = choose|k: int|
                0 <= k < t.len() && n == (#[trigger] t[k]).len() && search::occurs_at(all, t[k], p);
            assert(state.hold.skip(0) == state.hold);
            assert(search::occurs_at(state.hold, t[k], 0));
            assert(search::any_occurs_at(state.hold, t, 0));
            search::lemma_first_of_any_is(state.hold, t, 0);
            assert(state.hold.take(0) == Seq::<char>::empty());
            assert(trim::trimmed(Seq::<char>::empty()) == Seq::<char>::empty());
        },
        None => {
            law_nothing_is_lost(true, pieces);
            assert forall|j: int| !search::any_occurs_at(state.hold, t, j) by {
                if search::any_occurs_at(state.hold, t, j) {
                    let m = choose|m: int|
                        0 <= m < t.len() && search::occurs_at(state.hold, #[trigger] t[m], j);
                    let at = passed.len() + j;
                    assert(all.skip(at) =~= state.hold.skip(j));
                    assert(search::occurs_at(all, t[m], at));
                    assert(search::any_occurs_at(all, t, at));
                }
            }
            search::lemma_first_of_any_none(state.hold, t);
        },
    }
}

/// The text that a search says can be sent on holds no part of a sentinel: whatever text comes
/// next, no sentinel starts before the end of what was sent on.
pub proof fn law_sent_text_holds_no_sentinel(
    pending: Seq<char>,
    more: Seq<char>,
    sentinel: Seq<char>,
    i: int,
)
    requires
        search::first_of(pending, sentinel) is None,
        0 <= i < pending.len() - stream::overlap(pending, sentinel),
    ensures
        !search::occurs_at(pending + more, sentinel, i),
{
    search::lemma_first_from(pending, sentinel, 0);
    stream::lemma_overlap(pending, sentinel);
    if search::occurs_at(pending + more, sentinel, i) {
        search::lemma_occurs_extends(pending, more, sentinel, i);
        let c = pending.len() - i;
        let n = sentinel.len() as int;
        if i + n <= pending.len() {
            assert(search::occurs_at(pending, sentinel, i));
        } else {
            assert(sentinel =~= (pending + more).skip(i).subrange(0, n));
            assert(pending.skip(i) =~= sentinel.take(c));
            assert(stream::is_overlap(pending, sentinel, c));
        }
    }
}

/// The result of a search for several sentinels is made up of those of the searches for each of
/// them: the least hit where there is one, else the least number of bytes that can be sent on. With
/// no sentinel at all, everything can be sent on.
pub open spec fn least_of(pending: Seq<char>, scans: Seq<SentinelScan>, any: SentinelScan) -> bool {
    match any {
        SentinelScan::Found { idx } => {
            &&& scans.contains(any)
            &&& forall|k: int|
                0 <= k < scans.len() ==> (#[trigger] scans[k] matches SentinelScan::Found {
                    idx: other,
                } ==> idx <= other)
        },
        SentinelScan::Partial { flush_len } => {
            &&& if scans.len() == 0 {
                flush_len == offsets::byte_len(pending)
            } else {
                scans.contains(any)
            }
            &&& forall|k: int|
                0 <= k < scans.len() ==> (#[trigger] scans[k] matches SentinelScan::Partial {
                    flush_len: other,
                } && flush_len <= other)
        },
    }
}

/// Searching for several sentinels at once gives the least of what searching for each of them gives.
pub proof fn law_search_for_any_is_the_least(
    pending: Seq<char>,
    sentinels: Seq<Seq<char>>,
    scans: Seq<SentinelScan>,
    any: SentinelScan,
)
    requires
        scans.len() == sentinels.len(),
        forall|k: int|
            0 <= k < sentinels.len() ==> stream::scan_result(
                pending,
                #[trigger] sentinels[k],
                scans[k],
            ),
        stream::scan_any_result(pending, sentinels, any),
    ensures
        least_of(pending, scans, any),
{
    search::lemma_first_of_any(pending, sentinels);
    stream::lemma_overlap_any(pending, sentinels);
    match search::first_of_any(pending, sentinels) {
        Some((i, n)) => {
            let k = choose|k: int|
                0 <= k < sentinels.len() && n == (#[trigger] sentinels[k]).len()
                    && search::occurs_at(pending, sentinels[k], i);
            lemma_not_before(pending, sentinels, k, i);
            assert(scans[k] == any);
            assert forall|m: int| 0 <= m < scans.len() implies (
            #[trigger] scans[m] matches SentinelScan::Found { idx: other } ==> any->idx <= other) by {
                assert(stream::scan_result(pending, sentinels[m], scans[m]));
                search::lemma_first_from(pending, sentinels[m], 0);
                if let Some(j) = search::first_of(pending, sentinels[m]) {
                    assert(search::any_occurs_at(pending, sentinels, j));
                    if i < j {
                        offsets::lemma_offset_monotone(pending, i, j);
                    }
                }
            }
        },
        None => {
            let o = stream::overlap_any(pending, sentinels);
            assert forall|m: int| 0 <= m < scans.len() implies (
            #[trigger] scans[m] matches SentinelScan::Partial { flush_len: other }
                && any->flush_len <= other) by {
                assert(stream::scan_result(pending, sentinels[m], scans[m]));
                search::lemma_first_from(pending, sentinels[m], 0);
                if let Some(j) = search::first_of(pending, sentinels[m]) {
                    assert(search::any_occurs_at(pending, sentinels, j));
                }
                lemma_overlap_is_some(pending, sentinels, m);
                let c = stream::overlap(pending, sentinels[m]);
                if c < o {
                    offsets::lemma_offset_monotone(pending, pending.len() - o, pending.len() - c);
                }
            }
            if scans.len() == 0 {
                assert(pending.take(pending.len() as int) == pending);
            } else {
                let k = if o > 0 {
                    choose|k: int|
                        0 <= k < sentinels.len() && stream::is_overlap(
                            pending,
                            #[trigger] sentinels[k],
                            o,
                        )
                } else {
                    0
                };
                assert(stream::scan_result(pending, sentinels[k], scans[k]));
                lemma_overlap_is_some(pending, sentinels, k);
                stream::lemma_overlap(pending, sentinels[k]);
                assert(stream::overlap(pending, sentinels[k]) == o);
                assert(scans[k] == any);
            }
        },
    }
}

/// A sentinel that stands where the first of all stands does not stand before.
proof fn lemma_not_before(pending: Seq<char>, sentinels: Seq<Seq<char>>, k: int, i: int)
    requires
        0 <= k < sentinels.len(),
        search::occurs_at(pending, sentinels[k], i),
        forall|j: int| j < i ==> !search::any_occurs_at(pending, sentinels, j),
    ensures
        search::first_of(pending, sentinels[k]) == Some(i),
{
    search::lemma_first_from(pending, sentinels[k], 0);
    if let Some(j) = search::first_of(pending, sentinels[k]) {
        assert(search::any_occurs_at(pending, sentinels, j));
    }
}

/// The overlap with one sentinel is at most that with any.
proof fn lemma_overlap_is_some(pending: Seq<char>, sentinels: Seq<Seq<char>>, k: int)
    requires
        0 <= k < sentinels.len(),
    ensures
        0 <= stream::overlap(pending, sentinels[k]) <= stream::overlap_any(pending, sentinels),
{
    stream::lemma_overlap(pending, sentinels[k]);
    stream::lemma_overlap_any(pending, sentinels);
    if sentinels[k].len() > 0 {
        assert(stream::is_overlap(
            pending,
            sentinels[k],
            stream::overlap(pending, sentinels[k]),
        ));
    }
}

/// Neither the order of the sentinels nor how often one of them occurs makes a difference to a
/// search.
pub proof fn law_order_of_sentinels_makes_no_difference(
    pending: Seq<char>,
    a: Seq<Seq<char>>,
    b: Seq<Seq<char>>,
    x: SentinelScan,
    y: SentinelScan,
)
    requires
        forall|s: Seq<char>| a.contains(s) == b.contains(s),
        stream::scan_any_result(pending, a, x),
        stream::scan_any_result(pending, b, y),
    ensures
        x == y,
{
    lemma_same_search(pending, a, b);
    lemma_same_search(pending, b, a);
}

/// With more sentinels a search finds no less: the first hit is no later, and no less has to wait.
proof fn lemma_same_search(pending: Seq<char>, a: Seq<Seq<char>>, b: Seq<Seq<char>>)
    requires
        forall|s: Seq<char>| a.contains(s) ==> b.contains(s),
    ensures
        search::first_of_any(pending, a) matches Some((i, _)) ==> (search::first_of_any(
            pending,
            b,
        ) matches Some((j, _)) && j <= i),
        stream::overlap_any(pending, a) <= stream::overlap_any(pending, b),
{
    search::lemma_first_of_any(pending, a);
    search::lemma_first_of_any(pending, b);
    if let Some((i, n)) = search::first_of_any(pending, a) {
        let k = choose|k: int|
            0 <= k < a.len() && n == (#[trigger] a[k]).len() && search::occurs_at(pending, a[k], i);
        assert(a.contains(a[k]));
        let m = choose|m: int| 0 <= m < b.len() && b[m] == a[k];
        assert(search::occurs_at(pending, b[m], i));
        assert(search::any_occurs_at(pending, b, i));
    }
    stream::lemma_overlap_any(pending, a);
    stream::lemma_overlap_any(pending, b);
    let o = stream::overlap_any(pending, a);
    if o > 0 {
        let k = choose|k: int| 0 <= k < a.len() && stream::is_overlap(pending, #[trigger] a[k], o);
        assert(a.contains(a[k]));
        let m = choose|m: int| 0 <= m < b.len() && b[m] == a[k];
        assert(stream::is_overlap(pending, b[m], o));
    }
}

/// The offset that a search returns falls between two characters, so the text can be cut there.
pub proof fn law_cuts_fall_between_characters(
    pending: Seq<char>,
    sentinel: Seq<char>,
    scan: SentinelScan,
)
    requires
        stream::scan_result(pending, sentinel, scan),
    ensures
        is_char_boundary(
            encode_utf8(pending),
            match scan {
                SentinelScan::Found { idx } => idx as int,
                SentinelScan::Partial { flush_len } => flush_len as int,
            },
        ),
{
    match search::first_of(pending, sentinel) {
        Some(i) => offsets::lemma_offset_is_boundary(pending, i),
        None => offsets::lemma_offset_is_boundary(
            pending,
            pending.len() - stream::overlap(pending, sentinel),
        ),
    }
}

/// What a search says of the text, and nothing less. A hit is the byte offset of the first place at
/// which the text goes on with the sentinel. Where there is no such place, what has to wait is the
/// longest end of the text that is a start of the sentinel, and the result is the number of bytes
/// before it.
pub proof fn law_search_result(pending: Seq<char>, sentinel: Seq<char>, scan: SentinelScan)
    requires
        stream::scan_result(pending, sentinel, scan),
    ensures
        match scan {
            SentinelScan::Found { idx } => exists|i: int|
                {
                    &&& 0 <= i <= pending.len()
                    &&& sentinel.is_prefix_of(#[trigger] pending.skip(i))
                    &&& idx == encode_utf8(pending.take(i)).len()
                    &&& forall|j: int|
                        0 <= j < i ==> !sentinel.is_prefix_of(#[trigger] pending.skip(j))
                },
            SentinelScan::Partial { flush_len } => {
                &&& forall|j: int|
                    0 <= j <= pending.len() ==> !sentinel.is_prefix_of(#[trigger] pending.skip(j))
                &&& exists|h: int|
                    {
                        &&& 0 <= h < sentinel.len()
                        &&& h <= pending.len()
                        &&& pending.skip(pending.len() - h) == #[trigger] sentinel.take(h)
                        &&& flush_len == encode_utf8(pending.take(pending.len() - h)).len()
                        &&& forall|c: int|
                            h < c < sentinel.len() && c <= pending.len() ==> pending.skip(
                                pending.len() - c,
                            ) != #[trigger] sentinel.take(c)
                    }
            },
        },
{
    text_laws::law_search_finds_the_earliest(pending, sentinel);
    match search::first_of(pending, sentinel) {
        Some(i) => {
            assert(sentinel.is_prefix_of(pending.skip(i)));
        },
        None => {
            if sentinel.len() == 0 {
                assert(sentinel =~= pending.skip(0).subrange(0, 0));
                assert(sentinel.is_prefix_of(pending.skip(0)));
            }
            stream::lemma_overlap(pending, sentinel);
            let h = stream::overlap(pending, sentinel);
            assert(pending.skip(pending.len() - h) == sentinel.take(h));
            assert forall|c: int|
                h < c < sentinel.len() && c <= pending.len() implies pending.skip(pending.len() - c)
                != #[trigger] sentinel.take(c) by {
                assert(!stream::is_overlap(pending, sentinel, c));
            }
        },
    }
}

/// Every search for an ASCII sentinel is allowed, and so is every search for a sentinel that is
/// there. Any other search is allowed where no cut falls inside a character of the sentinel: where
/// some end of the text has fewer bytes than the sentinel, some start of the sentinel has as many.
pub proof fn law_searches_that_are_allowed(pending: Seq<char>, sentinel: Seq<char>)
    ensures
        is_ascii_chars(sentinel) ==> stream::can_scan(pending, sentinel),
        (exists|i: int|
            0 <= i <= pending.len() && sentinel.is_prefix_of(#[trigger] pending.skip(i)))
            ==> stream::can_scan(pending, sentinel),
        (forall|j: int|
            0 <= j < pending.len() && encode_utf8(#[trigger] pending.skip(j)).len() < encode_utf8(
                sentinel,
            ).len() ==> exists|m: int|
                0 <= m <= sentinel.len() && encode_utf8(#[trigger] sentinel.take(m)).len()
                    == encode_utf8(pending.skip(j)).len()) ==> stream::can_scan(pending, sentinel),
{
    text_laws::law_search_finds_the_earliest(pending, sentinel);
    stream::lemma_overlap(pending, sentinel);
    if forall|j: int|
        0 <= j < pending.len() && encode_utf8(#[trigger] pending.skip(j)).len() < encode_utf8(
            sentinel,
        ).len() ==> exists|m: int|
            0 <= m <= sentinel.len() && encode_utf8(#[trigger] sentinel.take(m)).len()
                == encode_utf8(pending.skip(j)).len() {
        assert forall|j: int|
            0 <= j < pending.len() - stream::overlap(pending, sentinel) && offsets::byte_len(
                #[trigger] pending.skip(j),
            ) < offsets::byte_len(sentinel) implies exists|m: int|
            offsets::is_offset_of(sentinel, offsets::byte_len(pending.skip(j)) as int, m) by {
            let m = choose|m: int|
                0 <= m <= sentinel.len() && encode_utf8(#[trigger] sentinel.take(m)).len()
                    == encode_utf8(pending.skip(j)).len();
            assert(offsets::is_offset_of(
                sentinel,
                offsets::byte_len(pending.skip(j)) as int,
                m,
            ));
        }
    }
}

/// What a search for several sentinels says of the text: a hit is the first place at which the text
/// goes on with any of them. Where there is no such place, what has to wait is the longest end of the
/// text that is a start, and not the whole, of any of them.
pub proof fn law_search_result_of_any(
    pending: Seq<char>,
    sentinels: Seq<Seq<char>>,
    scan: SentinelScan,
)
    requires
        stream::scan_any_result(pending, sentinels, scan),
    ensures
        match scan {
            SentinelScan::Found { idx } => exists|i: int, k: int|
                {
                    &&& 0 <= i <= pending.len()
                    &&& 0 <= k < sentinels.len()
                    &&& (#[trigger] sentinels[k]).is_prefix_of(#[trigger] pending.skip(i))
                    &&& idx == encode_utf8(pending.take(i)).len()
                    &&& forall|j: int, m: int|
                        0 <= j < i && 0 <= m < sentinels.len() ==> !(
                        #[trigger] sentinels[m]).is_prefix_of(#[trigger] pending.skip(j))
                },
            SentinelScan::Partial { flush_len } => {
                &&& forall|j: int, m: int|
                    0 <= j <= pending.len() && 0 <= m < sentinels.len() ==> !(
                    #[trigger] sentinels[m]).is_prefix_of(#[trigger] pending.skip(j))
                &&& exists|h: int|
                    {
                        &&& 0 <= h <= pending.len()
                        &&& flush_len == encode_utf8(#[trigger] pending.take(pending.len() - h)).len()
                        &&& h > 0 ==> exists|k: int|
                            0 <= k < sentinels.len() && h < (#[trigger] sentinels[k]).len()
                                && pending.skip(pending.len() - h) == sentinels[k].take(h)
                        &&& forall|c: int, k: int|
                            0 <= k < sentinels.len() && h < c < sentinels[k].len() && c
                                <= pending.len() ==> pending.skip(pending.len() - c)
                                != #[trigger] sentinels[k].take(c)
                    }
            },
        },
{
    text_laws::law_search_finds_the_earliest_of_all(pending, sentinels);
    match search::first_of_any(pending, sentinels) {
        Some((i, n)) => {
            let k = choose|k: int|
                0 <= k < sentinels.len() && (#[trigger] sentinels[k]).is_prefix_of(pending.skip(i));
            assert(sentinels[k].is_prefix_of(pending.skip(i)));
        },
        None => {
            lemma_longest_end(pending, sentinels);
            let h = stream::overlap_any(pending, sentinels);
            let before = pending.take(pending.len() - h);
            assert(scan->flush_len == encode_utf8(before).len());
        },
    }
}

/// The longest end of a text that is a start of any sentinel.
proof fn lemma_longest_end(text: Seq<char>, sentinels: Seq<Seq<char>>)
    ensures
        ({
            let h = stream::overlap_any(text, sentinels);
            &&& 0 <= h <= text.len()
            &&& h > 0 ==> exists|k: int|
                0 <= k < sentinels.len() && h < (#[trigger] sentinels[k]).len() && text.skip(
                    text.len() - h,
                ) == sentinels[k].take(h)
            &&& forall|c: int, k: int|
                0 <= k < sentinels.len() && h < c < sentinels[k].len() && c <= text.len()
                    ==> text.skip(text.len() - c) != #[trigger] sentinels[k].take(c)
        }),
{
    stream::lemma_overlap_any(text, sentinels);
    let h = stream::overlap_any(text, sentinels);
    if h > 0 {
        let k = choose|k: int|
            0 <= k < sentinels.len() && stream::is_overlap(text, #[trigger] sentinels[k], h);
        assert(h < sentinels[k].len());
    }
    assert forall|c: int, k: int|
        0 <= k < sentinels.len() && h < c < sentinels[k].len() && c <= text.len() implies text.skip(
        text.len() - c,
    ) != #[trigger] sentinels[k].take(c) by {
        assert(!stream::is_overlap(text, sentinels[k], c));
    }
}

/// A new guard is enabled as asked, is not armed, and holds nothing.
pub proof fn law_new_guard(enabled: bool)
    ensures
        stream::fresh(enabled).enabled == enabled,
        !stream::fresh(enabled).armed,
        stream::fresh(enabled).hold == Seq::<char>::empty(),
{
}

/// What a guard does with one piece of text. A guard that is not enabled passes the piece on as it
/// is. An armed one adds all of it to its buffer and passes nothing on. Any other passes on, and
/// keeps, exactly what it held followed by the piece, and
///
/// - is armed afterwards exactly where that holds a marker: it then keeps the text from the first
///   marker on;
/// - else keeps the longest end of that which is a start of a marker.
pub proof fn law_feeding_a_guard(state: GuardState, content: Seq<char>)
    ensures
        ({
            let (next, out) = stream::feed(state, content);
            let text = state.hold + content;
            let t = markers::triggers();
            &&& next.enabled == state.enabled
            &&& !state.enabled ==> next == state && out == content
            &&& state.enabled && state.armed ==> next.armed && next.hold == text && out == Seq::<
                char,
            >::empty()
            &&& state.enabled && !state.armed ==> out + next.hold == text
            &&& state.enabled && !state.armed && next.armed ==> {
                &&& exists|k: int| 0 <= k < t.len() && (#[trigger] t[k]).is_prefix_of(next.hold)
                &&& forall|j: int, k: int|
                    0 <= j < out.len() && 0 <= k < t.len() ==> !(#[trigger] t[k]).is_prefix_of(
                        #[trigger] text.skip(j),
                    )
            }
            &&& state.enabled && !state.armed && !next.armed ==> {
                &&& forall|j: int, k: int|
                    0 <= j <= text.len() && 0 <= k < t.len() ==> !(#[trigger] t[k]).is_prefix_of(
                        #[trigger] text.skip(j),
                    )
                &&& next.hold.len() > 0 ==> exists|k: int|
                    0 <= k < t.len() && next.hold.len() < (#[trigger] t[k]).len() && next.hold
                        == t[k].take(next.hold.len() as int)
                &&& forall|c: int, k: int|
                    0 <= k < t.len() && next.hold.len() < c < t[k].len() && c <= text.len()
                        ==> text.skip(text.len() - c) != #[trigger] t[k].take(c)
            }
        }),
{
    let (next, out) = stream::feed(state, content);
    let text = state.hold + content;
    let t = markers::triggers();
    text_laws::law_search_finds_the_earliest_of_all(text, t);
    lemma_longest_end(text, t);
    if state.enabled && !state.armed {
        match search::first_of_any(text, t) {
            Some((i, n)) => {
                let k = choose|k: int|
                    0 <= k < t.len() && (#[trigger] t[k]).is_prefix_of(text.skip(i));
                assert(t[k].is_prefix_of(next.hold));
                assert(out + next.hold =~= text);
            },
            None => {
                assert(out + next.hold =~= text);
            },
        }
    }
}

/// Taking the buffer hands out all that a guard holds and leaves it empty; nothing else changes.
/// Taking the text that is still held back does the same to a guard that is not armed, and nothing
/// to an armed one.
pub proof fn law_taking_from_a_guard(state: GuardState)
    ensures
        ({
            let (next, taken) = stream::buffer_taken(state);
            &&& taken == state.hold
            &&& next.hold == Seq::<char>::empty()
            &&& next.enabled == state.enabled
            &&& next.armed == state.armed
        }),
        ({
            let (next, taken) = stream::unflushed_taken(state);
            &&& state.armed ==> next == state && taken == Seq::<char>::empty()
            &&& !state.armed ==> taken == state.hold && next.hold == Seq::<char>::empty()
            &&& next.enabled == state.enabled
            &&& next.armed == state.armed
        }),
{
}

} // verus!
