//! The request resolver: derives the cache key of a selection, decides a
//! video request against the cache, and settles what the encoder's run
//! left behind.

use vstd::prelude::*;
use crate::cache::{
    cache_lookup, cache_set, clone_strings, distinct_keys, CacheEntryView, CacheKey, CacheKeyView,
    VideoCache,
};
use crate::cache::lemma_store_then_hit;
use crate::encoder::{concat_script, default_args_spec, default_encoder_args, hold_str, script_of};
use crate::frames::{FrameCollection, FrameView};

verus! {

/// Why an encode yielded no bytes.
#[derive(Debug)]
pub enum EncodeError {
    /// The encoder exited with failure.
    EncoderFailed,
    /// The encoder's output could not be read back.
    OutputUnreadable,
}

/// The view of an optional argument-override vector.
pub open spec fn override_view(a: &Option<Vec<String>>) -> Option<Seq<Seq<char>>> {
    match *a {
        Some(v) => Some(v@.map_values(|s: String| s@)),
        None => None,
    }
}

/// The key a selection encodes under: the folder scope is the first
/// frame's path; the window markers are the first and last selected
/// timestamps.
pub open spec fn derived_key(
    frames: Seq<FrameView>,
    fps: int,
    args: Option<Seq<Seq<char>>>,
) -> CacheKeyView
    recommends
        frames.len() > 0,
{
    CacheKeyView {
        folder: frames[0].path,
        start: frames[0].timestamp,
        end: frames[frames.len() - 1].timestamp,
        fps: fps,
        args_override: args,
    }
}

/// Derive the cache key of a non-empty selection.
pub fn make_cache_key(
    frames: &FrameCollection,
    fps: usize,
    args_override: &Option<Vec<String>>,
) -> (k: CacheKey)
    requires
        frames@.len() > 0,
    ensures
        k@ == derived_key(frames@, fps as int, override_view(args_override)),
{
    let n: usize = frames.frames.len();
    let first: &crate::frames::Frame = &frames.frames[0];
    let last: &crate::frames::Frame = &frames.frames[n - 1];
    CacheKey {
        folder: first.path.clone(),
        start: first.timestamp,
        end: last.timestamp,
        fps,
        args_override: match args_override {
            Some(v) => Some(clone_strings(v)),
            None => None,
        },
    }
}

/// A value-preserving copy of a byte vector.
pub(crate) fn clone_bytes(v: &Vec<u8>) -> (r: Vec<u8>)
    ensures
        r@ == v@,
{
    let mut r: Vec<u8> = Vec::new();
    let mut i: usize = 0;
    while i < v.len()
        invariant
            i <= v.len(),
            r@ == v@.take(i as int),
        decreases v.len() - i,
    {
        let b: u8 = v[i];
        proof {
            assert(v@.take(i + 1) =~= v@.take(i as int).push(b));
        }
        r.push(b);
        i = i + 1;
    }
    proof {
        assert(v@.take(v@.len() as int) =~= v@);
    }
    r
}

/// What the resolver decides for a video request.
pub enum EncodePlan {
    /// The selection is empty: a not-found condition; the encoder is
    /// not invoked.
    NotFound,
    /// The result was already cached: these bytes answer the request.
    CacheHit(Vec<u8>),
    /// The encoder must run: its argument vector, the script for its
    /// standard input, and the key under which success is stored.
    Encode { key: CacheKey, script: String, args: Vec<String> },
}

/// Decide a video request against the cache: an empty selection is
/// not-found before any encoder work; a cached key is a hit; otherwise
/// the encoder runs with the override arguments, or the default vector
/// writing to `output_path`.
pub fn plan_video(
    cache: &VideoCache,
    frames: &FrameCollection,
    fps: usize,
    args_override: &Option<Vec<String>>,
    output_path: &str,
) -> (r: EncodePlan)
    requires
        fps >= 1,
    ensures
        match r {
            EncodePlan::NotFound => frames@.len() == 0,
            EncodePlan::CacheHit(b) => frames@.len() > 0 && cache_lookup(
                cache@,
                derived_key(frames@, fps as int, override_view(args_override)),
            ) == Some(b@),
            EncodePlan::Encode { key, script, args } => {
                &&& frames@.len() > 0
                &&& cache_lookup(
                    cache@,
                    derived_key(frames@, fps as int, override_view(args_override)),
                ) is None
                &&& key@ == derived_key(frames@, fps as int, override_view(args_override))
                &&& script@ == script_of(
                    frames@.map_values(|f: FrameView| f.path),
                    hold_str(fps as int),
                )
                &&& args@.map_values(|s: String| s@) == match override_view(args_override) {
                    Some(a) => a,
                    None => default_args_spec(output_path@),
                }
            },
        },
{
    if frames.frames.len() == 0 {
        return EncodePlan::NotFound;
    }
    let key: CacheKey = make_cache_key(frames, fps, args_override);
    match cache.get(&key) {
        Some(bytes) => EncodePlan::CacheHit(clone_bytes(bytes)),
        None => {
            let script: String = concat_script(frames, fps);
            let args: Vec<String> = match args_override {
                Some(v) => clone_strings(v),
                None => default_encoder_args(output_path),
            };
            EncodePlan::Encode { key, script, args }
        },
    }
}

/// Settle the encoder's run: a successful exit with readable output is
/// stored in the cache and returned; a failed exit or unreadable output
/// names its error and leaves the cache as it was.
pub fn finish_video(
    cache: &mut VideoCache,
    key: CacheKey,
    exit_ok: bool,
    output: Option<Vec<u8>>,
) -> (r: Result<Vec<u8>, EncodeError>)
    requires
        old(cache).wf(),
    ensures
        final(cache).wf(),
        final(cache).spec_size() == old(cache).spec_size(),
        match r {
            Ok(b) => {
                &&& exit_ok
                &&& output matches Some(d) && b@ == d@
                &&& final(cache)@ == cache_set(
                    old(cache)@,
                    old(cache).spec_size(),
                    key@,
                    b@,
                )
            },
            Err(EncodeError::EncoderFailed) => !exit_ok && final(cache)@ == old(cache)@,
            Err(EncodeError::OutputUnreadable) => exit_ok && output is None && final(cache)@
                == old(cache)@,
        },
{
    if !exit_ok {
        return Err(EncodeError::EncoderFailed);
    }
    match output {
        None => Err(EncodeError::OutputUnreadable),
        Some(data) => {
            let kept: Vec<u8> = clone_bytes(&data);
            cache.set(key, kept);
            Ok(data)
        },
    }
}

/// The response format a request names: `zip` selects archival
/// packaging, anything else video encoding.
pub enum OutputFormat {
    Video,
    Zip,
}

/// Whether `p` is exactly the token `zip`.
fn is_zip(p: &str) -> (r: bool)
    ensures
        r == (p@ == "zip"@),
{
    proof {
        reveal_strlit("zip");
    }
    let n: usize = p.unicode_len();
    if n != 3 {
        return false;
    }
    let r = p.get_char(0) == 'z' && p.get_char(1) == 'i' && p.get_char(2) == 'p';
    proof {
        if r {
            assert(p@ =~= "zip"@);
        }
    }
    r
}

/// Map the request's format parameter to the output mode.
pub fn output_format(param: Option<&str>) -> (r: OutputFormat)
    ensures
        match param {
            Some(p) => r == (if p@ == "zip"@ {
                OutputFormat::Zip
            } else {
                OutputFormat::Video
            }),
            None => r == OutputFormat::Video,
        },
{
    match param {
        Some(p) => {
            if is_zip(p) {
                OutputFormat::Zip
            } else {
                OutputFormat::Video
            }
        },
        None => OutputFormat::Video,
    }
}

/// The comma-separated tokens of `s`, as the query layer reads an
/// argument override: empty tokens kept, one empty token for the empty
/// string.
pub open spec fn split_commas_spec(s: Seq<char>) -> Seq<Seq<char>>
    decreases s.len(),
{
    if s.len() == 0 {
        seq![Seq::empty()]
    } else if s.last() == ',' {
        split_commas_spec(s.drop_last()).push(Seq::empty())
    } else {
        let r = split_commas_spec(s.drop_last());
        r.update(r.len() - 1, r.last().push(s.last()))
    }
}

/// Split a comma-separated token list.
pub fn split_commas(s: &str) -> (r: Vec<String>)
    ensures
        r@.map_values(|t: String| t@) == split_commas_spec(s@),
{
    let n: usize = s.unicode_len();
    let mut out: Vec<String> = Vec::new();
    let mut start: usize = 0;
    let mut i: usize = 0;
    proof {
        assert(s@.take(0) =~= Seq::<char>::empty());
        assert(split_commas_spec(s@.take(0)) =~= out@.map_values(|t: String| t@).push(
            s@.subrange(0, 0),
        ));
    }
    while i < n
        invariant
            start <= i <= n,
            n == s@.len(),
            split_commas_spec(s@.take(i as int)) == out@.map_values(|t: String| t@).push(
                s@.subrange(start as int, i as int),
            ),
        decreases n - i,
    {
        let c: char = s.get_char(i);
        proof {
            assert(s@.take(i + 1).drop_last() =~= s@.take(i as int));
            assert(s@.take(i + 1).last() == s@[i as int]);
        }
        if c == ',' {
            let token: String = s.substring_char(start, i).to_owned();
            proof {
                assert(out@.push(token).map_values(|t: String| t@) =~= out@.map_values(
                    |t: String| t@,
                ).push(token@));
                assert(split_commas_spec(s@.take(i + 1)) == split_commas_spec(
                    s@.take(i as int),
                ).push(Seq::empty()));
                assert(s@.subrange(i + 1, i + 1) =~= Seq::<char>::empty());
                assert(split_commas_spec(s@.take(i + 1)) =~= out@.push(token).map_values(
                    |t: String| t@,
                ).push(s@.subrange(i + 1, i + 1)));
            }
            out.push(token);
            start = i + 1;
        } else {
            proof {
                let r = split_commas_spec(s@.take(i as int));
                assert(r.last() == s@.subrange(start as int, i as int));
                assert(s@.subrange(start as int, i as int).push(s@[i as int]) =~= s@.subrange(
                    start as int,
                    i + 1,
                ));
                assert(split_commas_spec(s@.take(i + 1)) =~= out@.map_values(
                    |t: String| t@,
                ).push(s@.subrange(start as int, i + 1)));
            }
        }
        i = i + 1;
    }
    let token: String = s.substring_char(start, n).to_owned();
    proof {
        assert(s@.take(n as int) =~= s@);
        assert(out@.push(token).map_values(|t: String| t@) =~= out@.map_values(
            |t: String| t@,
        ).push(token@));
    }
    out.push(token);
    out
}

/// Law: once an encode of a selection is stored, the same request is a
/// cache hit with exactly the stored bytes.
pub proof fn lemma_second_request_hits(
    cv: Seq<CacheEntryView>,
    size: int,
    frames: Seq<FrameView>,
    fps: int,
    args: Option<Seq<Seq<char>>>,
    bytes: Seq<u8>,
)
    requires
        size >= 1,
        cv.len() <= size,
        distinct_keys(cv),
        frames.len() > 0,
    ensures
        cache_lookup(
            cache_set(cv, size, derived_key(frames, fps, args), bytes),
            derived_key(frames, fps, args),
        ) == Some(bytes),
{
    lemma_store_then_hit(cv, size, derived_key(frames, fps, args), bytes);
}

} // verus!
