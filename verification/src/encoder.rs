//! Encoder-pipeline pieces: the fixed argument vector, the hold
//! duration per frame, and the concatenation script streamed to the
//! external encoder.

use vstd::prelude::*;
use crate::decimal::{dec_digit_char, dec_str, digit_str, u64_to_string};
use crate::frames::{FrameCollection, FrameView};

verus! {

/// Hold duration of one frame in centiseconds: `1/fps` seconds rounded
/// to the nearest centisecond, halves up.
pub open spec fn hold_centis(fps: int) -> int {
    (100 + fps / 2) / fps
}

/// The duration text `S.CC`: whole seconds, a point, two centisecond
/// digits.
pub open spec fn hold_str(fps: int) -> Seq<char> {
    let c = hold_centis(fps);
    dec_str((c / 100) as nat) + seq!['.'] + seq![
        dec_digit_char(((c % 100) / 10) as nat),
        dec_digit_char(((c % 100) % 10) as nat),
    ]
}

/// Format the hold duration of one frame at `fps`.
pub fn hold_duration(fps: usize) -> (s: String)
    requires
        fps >= 1,
    ensures
        s@ == hold_str(fps as int),
{
    let c: usize = (100 + fps / 2) / fps;
    let frac: usize = c % 100;
    let mut s = u64_to_string((c / 100) as u64);
    proof {
        reveal_strlit(".");
        assert("."@ =~= seq!['.']);
    }
    s.append(".");
    s.append(digit_str((frac / 10) as u64));
    s.append(digit_str((frac % 10) as u64));
    proof {
        assert(s@ =~= hold_str(fps as int));
    }
    s
}

/// One script directive: the frame's source path and its hold duration.
pub open spec fn directive(path: Seq<char>, hold: Seq<char>) -> Seq<char> {
    "file 'file:"@ + path + "'\noutpoint "@ + hold + "\n"@
}

/// The whole concatenation script: one directive per frame, in order.
pub open spec fn script_of(paths: Seq<Seq<char>>, hold: Seq<char>) -> Seq<char>
    decreases paths.len(),
{
    if paths.len() == 0 {
        Seq::empty()
    } else {
        script_of(paths.drop_last(), hold) + directive(paths.last(), hold)
    }
}

/// Serialize the sorted frame paths into the encoder's concatenation
/// script.
pub fn concat_script(frames: &FrameCollection, fps: usize) -> (s: String)
    requires
        fps >= 1,
    ensures
        s@ == script_of(frames@.map_values(|f: FrameView| f.path), hold_str(fps as int)),
{
    let ghost paths: Seq<Seq<char>> = frames@.map_values(|f: FrameView| f.path);
    let hold: String = hold_duration(fps);
    let mut s = String::new();
    let mut i: usize = 0;
    while i < frames.frames.len()
        invariant
            i <= frames.frames.len(),
            paths == frames@.map_values(|f: FrameView| f.path),
            paths.len() == frames.frames@.len(),
            hold@ == hold_str(fps as int),
            s@ == script_of(paths.take(i as int), hold@),
        decreases frames.frames.len() - i,
    {
        let p: &String = &frames.frames[i].path;
        proof {
            assert(paths.take(i + 1).drop_last() =~= paths.take(i as int));
            assert(paths.take(i + 1).last() == p@);
        }
        s.append("file 'file:");
        s.append(p.as_str());
        s.append("'\noutpoint ");
        s.append(hold.as_str());
        s.append("\n");
        proof {
            assert(s@ =~= script_of(paths.take(i as int), hold@) + directive(p@, hold@));
            assert(script_of(paths.take(i + 1), hold@) == script_of(paths.take(i as int), hold@)
                + directive(p@, hold@));
        }
        i = i + 1;
    }
    proof {
        assert(paths.take(frames.frames@.len() as int) =~= paths);
    }
    s
}

/// The default encoder argument vector: the concat demuxer on standard
/// input, H.264 at a fast preset, an MP4 written to `output`.
pub open spec fn default_args_spec(output: Seq<char>) -> Seq<Seq<char>> {
    seq![
        "-y"@,
        "-safe"@,
        "0"@,
        "-protocol_whitelist"@,
        "pipe,file"@,
        "-f"@,
        "concat"@,
        "-i"@,
        "pipe:0"@,
        "-c:v"@,
        "libx264"@,
        "-preset"@,
        "ultrafast"@,
        "-crf"@,
        "18"@,
        "-movflags"@,
        "+faststart"@,
        "-f"@,
        "mp4"@,
        output,
    ]
}

/// Build the default encoder arguments, writing to `output_path`.
pub fn default_encoder_args(output_path: &str) -> (r: Vec<String>)
    ensures
        r@.map_values(|s: String| s@) == default_args_spec(output_path@),
{
    let mut r: Vec<String> = Vec::new();
    r.push(String::from_str("-y"));
    r.push(String::from_str("-safe"));
    r.push(String::from_str("0"));
    r.push(String::from_str("-protocol_whitelist"));
    r.push(String::from_str("pipe,file"));
    r.push(String::from_str("-f"));
    r.push(String::from_str("concat"));
    r.push(String::from_str("-i"));
    r.push(String::from_str("pipe:0"));
    r.push(String::from_str("-c:v"));
    r.push(String::from_str("libx264"));
    r.push(String::from_str("-preset"));
    r.push(String::from_str("ultrafast"));
    r.push(String::from_str("-crf"));
    r.push(String::from_str("18"));
    r.push(String::from_str("-movflags"));
    r.push(String::from_str("+faststart"));
    r.push(String::from_str("-f"));
    r.push(String::from_str("mp4"));
    r.push(String::from_str(output_path));
    proof {
        assert(r@.map_values(|s: String| s@) =~= default_args_spec(output_path@));
    }
    r
}

} // verus!
