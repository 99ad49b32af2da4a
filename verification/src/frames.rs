//! The frame index: timestamp-named still images of one folder, and the
//! range selection over them.

use vstd::prelude::*;
use crate::decimal::{parse_i64, parse_i64_spec};

verus! {

/// One still image: its path and the moment it was captured, read from
/// its file name.
pub struct Frame {
    pub path: String,
    pub timestamp: i64,
}

/// The mathematical content of a `Frame`.
pub struct FrameView {
    pub path: Seq<char>,
    pub timestamp: int,
}

impl View for Frame {
    type V = FrameView;

    open spec fn view(&self) -> FrameView {
        FrameView { path: self.path@, timestamp: self.timestamp as int }
    }
}

impl Frame {
    /// A value-preserving copy.
    pub fn duplicate(&self) -> (r: Frame)
        ensures
            r@ == self@,
    {
        Frame { path: self.path.clone(), timestamp: self.timestamp }
    }
}

/// The frames of one request, ordered.
pub struct FrameCollection {
    pub frames: Vec<Frame>,
}

impl View for FrameCollection {
    type V = Seq<FrameView>;

    open spec fn view(&self) -> Seq<FrameView> {
        self.frames@.map_values(|f: Frame| f@)
    }
}

/// The suffix stripped from file names before the timestamp parse.
pub open spec fn jpg_suffix() -> Seq<char> {
    seq!['.', 'j', 'p', 'g']
}

/// `s` ends with the image suffix.
pub open spec fn has_jpg_suffix(s: Seq<char>) -> bool {
    s.len() >= 4 && s.subrange(s.len() - 4, s.len() as int) == jpg_suffix()
}

/// `s` with every trailing repetition of the image suffix removed.
pub open spec fn strip_jpg(s: Seq<char>) -> Seq<char>
    decreases s.len(),
{
    if has_jpg_suffix(s) {
        strip_jpg(s.take(s.len() - 4))
    } else {
        s
    }
}

/// Remove every trailing `.jpg` from a file name, as
/// `str::trim_end_matches` would.
pub fn strip_jpg_suffix(s: &str) -> (r: &str)
    ensures
        r@ == strip_jpg(s@),
{
    let n: usize = s.unicode_len();
    let mut m: usize = n;
    proof {
        assert(s@.take(n as int) =~= s@);
    }
    loop
        invariant
            m <= n,
            n == s@.len(),
            strip_jpg(s@) == strip_jpg(s@.take(m as int)),
        ensures
            m <= n,
            s@.take(m as int) == strip_jpg(s@),
        decreases m,
    {
        if m >= 4 && s.get_char(m - 4) == '.' && s.get_char(m - 3) == 'j' && s.get_char(m - 2)
            == 'p' && s.get_char(m - 1) == 'g' {
            proof {
                let t = s@.take(m as int);
                assert(t.subrange(t.len() - 4, t.len() as int) =~= jpg_suffix());
                assert(t.take(t.len() - 4) =~= s@.take(m - 4));
            }
            m = m - 4;
        } else {
            proof {
                let t = s@.take(m as int);
                if has_jpg_suffix(t) {
                    assert(t[m - 4] == s@[m - 4] && t[m - 3] == s@[m - 3] && t[m - 2] == s@[m - 2]
                        && t[m - 1] == s@[m - 1]);
                    assert(false);
                }
            }
            break;
        }
    }
    s.substring_char(0, m)
}

/// The frame a directory entry contributes: its file name with the image
/// suffix stripped must parse as an integer; the path joins folder and name.
pub open spec fn frame_of_entry(folder: Seq<char>, name: Seq<char>) -> Option<FrameView> {
    match parse_i64_spec(strip_jpg(name)) {
        Some(ts) => Some(FrameView { path: folder + seq!['/'] + name, timestamp: ts as int }),
        None => None,
    }
}

/// The frames of a folder listing, in listing order: entries whose names
/// do not parse are silently skipped.
pub open spec fn frames_of_listing(folder: Seq<char>, names: Seq<Seq<char>>) -> Seq<FrameView>
    decreases names.len(),
{
    if names.len() == 0 {
        Seq::empty()
    } else {
        frames_of_listing(folder, names.drop_last()) + match frame_of_entry(folder, names.last()) {
            Some(f) => seq![f],
            None => Seq::empty(),
        }
    }
}

impl FrameCollection {
    /// Index a folder from its listed file names: keep exactly the entries
    /// whose names are an integer timestamp (after stripping `.jpg`), in
    /// listing order.
    pub fn new(folder: &str, names: Vec<String>) -> (r: FrameCollection)
        ensures
            r@ == frames_of_listing(folder@, names@.map_values(|n: String| n@)),
    {
        let ghost names_v: Seq<Seq<char>> = names@.map_values(|n: String| n@);
        let mut frames: Vec<Frame> = Vec::new();
        let mut i: usize = 0;
        while i < names.len()
            invariant
                i <= names.len(),
                names_v == names@.map_values(|n: String| n@),
                frames@.map_values(|f: Frame| f@) == frames_of_listing(folder@, names_v.take(
                    i as int,
                )),
            decreases names.len() - i,
        {
            let name: &String = &names[i];
            let stripped: &str = strip_jpg_suffix(name.as_str());
            proof {
                assert(names_v.take(i + 1).drop_last() =~= names_v.take(i as int));
                assert(names_v.take(i + 1).last() == name@);
            }
            match parse_i64(stripped) {
                Some(ts) => {
                    let mut path: String = String::new();
                    path.append(folder);
                    proof {
                        reveal_strlit("/");
                        assert("/"@ =~= seq!['/']);
                    }
                    path.append("/");
                    path.append(name.as_str());
                    let frame = Frame { path, timestamp: ts };
                    proof {
                        assert(frame@.path =~= folder@ + seq!['/'] + name@);
                        assert(frames@.push(frame).map_values(|f: Frame| f@) =~= frames@.map_values(
                            |f: Frame| f@,
                        ).push(frame@));
                        assert(frames_of_listing(folder@, names_v.take(i + 1))
                            =~= frames_of_listing(folder@, names_v.take(i as int)).push(frame@));
                    }
                    frames.push(frame);
                },
                None => {
                    proof {
                        assert(frames_of_listing(folder@, names_v.take(i + 1))
                            =~= frames_of_listing(folder@, names_v.take(i as int)));
                    }
                },
            }
            i = i + 1;
        }
        proof {
            assert(names_v.take(names@.len() as int) =~= names_v);
        }
        FrameCollection { frames }
    }

    /// The number of frames.
    pub fn len(&self) -> (n: usize)
        ensures
            n == self@.len(),
    {
        self.frames.len()
    }

    /// Give up the collection for its ordered list of paths.
    pub fn into_paths(self) -> (r: Vec<String>)
        ensures
            r@.map_values(|s: String| s@) == self@.map_values(|f: FrameView| f.path),
    {
        let mut paths: Vec<String> = Vec::new();
        let mut i: usize = 0;
        while i < self.frames.len()
            invariant
                i <= self.frames.len(),
                paths@.map_values(|s: String| s@) == self@.map_values(|f: FrameView| f.path).take(
                    i as int,
                ),
            decreases self.frames.len() - i,
        {
            let p: String = self.frames[i].path.clone();
            proof {
                assert(paths@.push(p).map_values(|s: String| s@) =~= paths@.map_values(
                    |s: String| s@,
                ).push(p@));
                assert(self@.map_values(|f: FrameView| f.path).take(i + 1)
                    =~= self@.map_values(|f: FrameView| f.path).take(i as int).push(p@));
            }
            paths.push(p);
            i = i + 1;
        }
        proof {
            assert(self@.map_values(|f: FrameView| f.path).take(self.frames@.len() as int)
                =~= self@.map_values(|f: FrameView| f.path));
        }
        paths
    }
}

/// The selection predicate: strictly inside the window on both ends;
/// frames exactly at a boundary are excluded.
pub open spec fn in_window(start: int, end: int, ts: int) -> bool {
    start < ts && ts < end
}

/// The frames of `s` strictly inside the window, in their original order.
pub open spec fn window_filter(s: Seq<FrameView>, start: int, end: int) -> Seq<FrameView>
    decreases s.len(),
{
    if s.len() == 0 {
        Seq::empty()
    } else {
        window_filter(s.drop_last(), start, end) + if in_window(start, end, s.last().timestamp) {
            seq![s.last()]
        } else {
            Seq::empty()
        }
    }
}

/// Non-decreasing by timestamp.
pub open spec fn sorted_by_ts(s: Seq<FrameView>) -> bool {
    forall|i: int, j: int| 0 <= i < j < s.len() ==> s[i].timestamp <= s[j].timestamp
}

/// Insert `f` after every element whose timestamp does not exceed its own:
/// the insertion step of a stable sort.
pub open spec fn insert_by_ts(s: Seq<FrameView>, f: FrameView) -> Seq<FrameView>
    decreases s.len(),
{
    if s.len() == 0 {
        seq![f]
    } else if s.last().timestamp <= f.timestamp {
        s.push(f)
    } else {
        insert_by_ts(s.drop_last(), f).push(s.last())
    }
}

/// Stable sort ascending by timestamp: equal timestamps keep their
/// original relative order.
pub open spec fn stable_sort_ts(s: Seq<FrameView>) -> Seq<FrameView>
    decreases s.len(),
{
    if s.len() == 0 {
        Seq::empty()
    } else {
        insert_by_ts(stable_sort_ts(s.drop_last()), s.last())
    }
}

/// Where the insertion lands: before the trailing run of larger
/// timestamps, after everything else.
proof fn lemma_insert_by_ts_at(s: Seq<FrameView>, f: FrameView, j: int)
    requires
        0 <= j <= s.len(),
        forall|k: int| j <= k < s.len() ==> s[k].timestamp > f.timestamp,
        j > 0 ==> s[j - 1].timestamp <= f.timestamp,
    ensures
        insert_by_ts(s, f) == s.take(j) + seq![f] + s.skip(j),
    decreases s.len(),
{
    if j == s.len() {
        if s.len() == 0 {
            assert(insert_by_ts(s, f) =~= s.take(j) + seq![f] + s.skip(j));
        } else {
            assert(s.last().timestamp <= f.timestamp);
            assert(s.push(f) =~= s.take(j) + seq![f] + s.skip(j));
        }
    } else {
        assert(s[s.len() - 1].timestamp > f.timestamp);
        lemma_insert_by_ts_at(s.drop_last(), f, j);
        assert(s.drop_last().take(j) =~= s.take(j));
        assert((s.drop_last().take(j) + seq![f] + s.drop_last().skip(j)).push(s.last()) =~= s.take(
            j,
        ) + seq![f] + s.skip(j));
    }
}

/// Inserting keeps sortedness and adds exactly one element.
proof fn lemma_insert_by_ts_sorted(s: Seq<FrameView>, f: FrameView)
    requires
        sorted_by_ts(s),
    ensures
        sorted_by_ts(insert_by_ts(s, f)),
        insert_by_ts(s, f).to_multiset() == s.to_multiset().insert(f),
        insert_by_ts(s, f).len() == s.len() + 1,
    decreases s.len(),
{
    broadcast use vstd::seq_lib::group_to_multiset_ensures;

    if s.len() == 0 {
        assert(seq![f].drop_last() =~= Seq::<FrameView>::empty());
        assert(insert_by_ts(s, f).to_multiset() =~= s.to_multiset().insert(f));
    } else if s.last().timestamp <= f.timestamp {
        assert(sorted_by_ts(s.push(f)));
        assert(s.push(f).to_multiset() =~= s.to_multiset().insert(f));
    } else {
        assert(sorted_by_ts(s.drop_last()));
        lemma_insert_by_ts_sorted(s.drop_last(), f);
        let t = insert_by_ts(s.drop_last(), f);
        // every element of t is either f or from s.drop_last(): bound by s.last()
        assert forall|i: int, j: int| 0 <= i < j < t.push(s.last()).len() implies t.push(
            s.last(),
        )[i].timestamp <= t.push(s.last())[j].timestamp by {
            if j < t.len() {
            } else {
                // show t[i].timestamp <= s.last().timestamp
                assert(t.to_multiset().contains(t[i]));
                assert(t.to_multiset() == s.drop_last().to_multiset().insert(f));
                if t[i] == f {
                } else {
                    assert(s.drop_last().to_multiset().contains(t[i]));
                    let w = choose|w: int|
                        0 <= w < s.drop_last().len() && s.drop_last()[w] == t[i];
                    assert(s[w].timestamp <= s.last().timestamp);
                }
            }
        }
        assert(s.drop_last().push(s.last()) =~= s);
        assert(t.push(s.last()).to_multiset() == t.to_multiset().insert(s.last()));
        assert(s.to_multiset() == s.drop_last().to_multiset().insert(s.last()));
        assert(t.push(s.last()).to_multiset() =~= s.to_multiset().insert(f));
    }
}

/// A stable sort is sorted and keeps the frames themselves.
pub proof fn lemma_stable_sort_ts(s: Seq<FrameView>)
    ensures
        sorted_by_ts(stable_sort_ts(s)),
        stable_sort_ts(s).to_multiset() == s.to_multiset(),
        stable_sort_ts(s).len() == s.len(),
    decreases s.len(),
{
    broadcast use vstd::seq_lib::group_to_multiset_ensures;

    if s.len() == 0 {
    } else {
        lemma_stable_sort_ts(s.drop_last());
        lemma_insert_by_ts_sorted(stable_sort_ts(s.drop_last()), s.last());
        assert(s.drop_last().push(s.last()) =~= s);
        assert(s.drop_last().to_multiset().insert(s.last()) == s.to_multiset());
    }
}

/// Every selected frame lies strictly inside the window.
proof fn lemma_window_filter_in_window(s: Seq<FrameView>, start: int, end: int)
    ensures
        forall|i: int|
            0 <= i < window_filter(s, start, end).len() ==> in_window(
                start,
                end,
                #[trigger] window_filter(s, start, end)[i].timestamp,
            ),
    decreases s.len(),
{
    if s.len() > 0 {
        lemma_window_filter_in_window(s.drop_last(), start, end);
        let w0 = window_filter(s.drop_last(), start, end);
        let w = window_filter(s, start, end);
        assert forall|i: int| 0 <= i < w.len() implies in_window(
            start,
            end,
            #[trigger] w[i].timestamp,
        ) by {
            if i < w0.len() {
                assert(w[i] == w0[i]);
            } else {
                assert(w[i] == s.last());
            }
        }
    }
}

/// Law: a selection is sorted ascending by timestamp, every selected
/// frame lies strictly inside the window, and the selection holds exactly
/// the in-window frames of its input.
pub proof fn lemma_select_sorted_in_window(s: Seq<FrameView>, start: int, end: int)
    ensures
        sorted_by_ts(stable_sort_ts(window_filter(s, start, end))),
        forall|i: int|
            0 <= i < stable_sort_ts(window_filter(s, start, end)).len() ==> in_window(
                start,
                end,
                #[trigger] stable_sort_ts(window_filter(s, start, end))[i].timestamp,
            ),
        stable_sort_ts(window_filter(s, start, end)).to_multiset() == window_filter(
            s,
            start,
            end,
        ).to_multiset(),
{
    broadcast use vstd::seq_lib::group_to_multiset_ensures;

    let w = window_filter(s, start, end);
    lemma_stable_sort_ts(w);
    lemma_window_filter_in_window(s, start, end);
    let t = stable_sort_ts(w);
    assert forall|i: int| 0 <= i < t.len() implies in_window(
        start,
        end,
        #[trigger] t[i].timestamp,
    ) by {
        assert(t.to_multiset().contains(t[i]));
        assert(w.to_multiset().contains(t[i]));
        let j = choose|j: int| 0 <= j < w.len() && w[j] == t[i];
        assert(in_window(start, end, w[j].timestamp));
    }
}

/// Insert a frame into a run sorted by timestamp, after its equals.
fn insert_sorted(v: &mut Vec<Frame>, f: Frame)
    requires
        sorted_by_ts(old(v)@.map_values(|x: Frame| x@)),
    ensures
        final(v)@.map_values(|x: Frame| x@) == insert_by_ts(
            old(v)@.map_values(|x: Frame| x@),
            f@,
        ),
{
    let ghost s: Seq<FrameView> = v@.map_values(|x: Frame| x@);
    let mut j: usize = v.len();
    while j > 0 && v[j - 1].timestamp > f.timestamp
        invariant
            j <= v.len(),
            s == v@.map_values(|x: Frame| x@),
            forall|k: int| j <= k < s.len() ==> s[k].timestamp > f@.timestamp,
        decreases j,
    {
        j = j - 1;
    }
    proof {
        lemma_insert_by_ts_at(s, f@, j as int);
    }
    v.insert(j, f);
    proof {
        assert(v@.map_values(|x: Frame| x@) =~= s.take(j as int) + seq![f@] + s.skip(j as int));
    }
}

impl FrameCollection {
    /// Select the frames strictly between `start` and `end` (epoch
    /// seconds, both ends exclusive), sorted ascending by timestamp.
    pub fn get_range(&self, start: i64, end: i64) -> (r: FrameCollection)
        ensures
            r@ == stable_sort_ts(window_filter(self@, start as int, end as int)),
            sorted_by_ts(r@),
            forall|i: int|
                0 <= i < r@.len() ==> in_window(start as int, end as int, r@[i].timestamp),
            r@.to_multiset() == window_filter(self@, start as int, end as int).to_multiset(),
    {
        let ghost s: Seq<FrameView> = self@;
        let mut picked: Vec<Frame> = Vec::new();
        let mut i: usize = 0;
        while i < self.frames.len()
            invariant
                i <= self.frames.len(),
                s == self@,
                s.len() == self.frames@.len(),
                picked@.map_values(|x: Frame| x@) == window_filter(
                    s.take(i as int),
                    start as int,
                    end as int,
                ),
            decreases self.frames.len() - i,
        {
            let fr: &Frame = &self.frames[i];
            proof {
                assert(s.take(i + 1).drop_last() =~= s.take(i as int));
                assert(s.take(i + 1).last() == fr@);
            }
            if start < fr.timestamp && fr.timestamp < end {
                let copy = fr.duplicate();
                proof {
                    assert(picked@.push(copy).map_values(|x: Frame| x@) =~= picked@.map_values(
                        |x: Frame| x@,
                    ).push(copy@));
                    assert(window_filter(s.take(i + 1), start as int, end as int)
                        =~= window_filter(s.take(i as int), start as int, end as int).push(fr@));
                }
                picked.push(copy);
            } else {
                proof {
                    assert(window_filter(s.take(i + 1), start as int, end as int) =~= window_filter(
                        s.take(i as int),
                        start as int,
                        end as int,
                    ));
                }
            }
            i = i + 1;
        }
        proof {
            assert(s.take(self.frames@.len() as int) =~= s);
        }
        let ghost w: Seq<FrameView> = window_filter(s, start as int, end as int);
        let mut sorted: Vec<Frame> = Vec::new();
        let mut k: usize = 0;
        while k < picked.len()
            invariant
                k <= picked.len(),
                w == picked@.map_values(|x: Frame| x@),
                sorted@.map_values(|x: Frame| x@) == stable_sort_ts(w.take(k as int)),
                sorted_by_ts(sorted@.map_values(|x: Frame| x@)),
            decreases picked.len() - k,
        {
            let f = picked[k].duplicate();
            proof {
                assert(w.take(k + 1).drop_last() =~= w.take(k as int));
                assert(w.take(k + 1).last() == f@);
                lemma_insert_by_ts_sorted(stable_sort_ts(w.take(k as int)), f@);
            }
            insert_sorted(&mut sorted, f);
            k = k + 1;
        }
        proof {
            assert(w.take(picked@.len() as int) =~= w);
            lemma_select_sorted_in_window(s, start as int, end as int);
        }
        FrameCollection { frames: sorted }
    }

    /// Select the frames strictly inside `window`, sorted ascending by
    /// timestamp.
    pub fn select(&self, window: &crate::window::TimeWindow) -> (r: FrameCollection)
        ensures
            r@ == stable_sort_ts(
                window_filter(self@, window.start as int, window.end as int),
            ),
            sorted_by_ts(r@),
    {
        self.get_range(window.start, window.end)
    }

    /// Select the trailing `days`-day window ending at `now`: the window
    /// start saturates at the smallest representable instant.
    pub fn get_past_days_at(&self, days: i64, now: i64) -> (r: FrameCollection)
        requires
            0 <= days <= 100_000_000,
        ensures
            r@ == stable_sort_ts(
                window_filter(self@, trailing_start(now as int, days as int), now as int),
            ),
            sorted_by_ts(r@),
    {
        let delta: i64 = days * 86400;
        let start: i64 = if now < i64::MIN + delta {
            i64::MIN
        } else {
            now - delta
        };
        self.get_range(start, now)
    }

    /// Select the trailing `days`-day window ending now.
    pub fn get_past_days(&self, days: i64) -> (r: FrameCollection)
        requires
            0 <= days <= 100_000_000,
        ensures
            exists|now: int|
                r@ == stable_sort_ts(
                    #[trigger] window_filter(self@, trailing_start(now, days as int), now),
                ),
            sorted_by_ts(r@),
    {
        let now: i64 = crate::clock::now_timestamp();
        let r = self.get_past_days_at(days, now);
        proof {
            assert(window_filter(self@, trailing_start(now as int, days as int), now as int)
                == window_filter(self@, trailing_start(now as int, days as int), now as int));
        }
        r
    }
}

/// Start of a trailing window of `days` days ending at `now`, held to the
/// representable range.
pub open spec fn trailing_start(now: int, days: int) -> int {
    if now - days * 86400 < i64::MIN {
        i64::MIN as int
    } else {
        now - days * 86400
    }
}

} // verus!
