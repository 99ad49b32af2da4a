use timelapse::cache::VideoCache;
use timelapse::frames::{Frame, FrameCollection};
use timelapse::resolver::{
    finish_video, output_format, plan_video, split_commas, EncodeError, EncodePlan, OutputFormat,
};

fn collection(ts: &[i64]) -> FrameCollection {
    FrameCollection {
        frames: ts
            .iter()
            .map(|t| Frame { path: format!("/c/{}.jpg", t), timestamp: *t })
            .collect(),
    }
}

#[test]
fn empty_selection_is_not_found_without_encoder_work() {
    let cache = VideoCache::new(10);
    let fc = collection(&[]);
    let plan = plan_video(&cache, &fc, 20, &None, "/tmp/out.mp4");
    assert!(matches!(plan, EncodePlan::NotFound));
}

#[test]
fn miss_plans_an_encode_with_script_and_default_args() {
    let cache = VideoCache::new(10);
    let fc = collection(&[1, 2]);
    let plan = plan_video(&cache, &fc, 20, &None, "/tmp/out.mp4");
    match plan {
        EncodePlan::Encode { key, script, args } => {
            assert_eq!(key.folder, "/c/1.jpg");
            assert_eq!(key.start, 1);
            assert_eq!(key.end, 2);
            assert_eq!(key.fps, 20);
            assert_eq!(key.args_override, None);
            assert_eq!(
                script,
                "file 'file:/c/1.jpg'\noutpoint 0.05\nfile 'file:/c/2.jpg'\noutpoint 0.05\n"
            );
            let expected: Vec<String> = [
                "-y", "-safe", "0", "-protocol_whitelist", "pipe,file", "-f", "concat", "-i",
                "pipe:0", "-c:v", "libx264", "-preset", "ultrafast", "-crf", "18", "-movflags",
                "+faststart", "-f", "mp4", "/tmp/out.mp4",
            ]
            .iter()
            .map(|s| s.to_string())
            .collect();
            assert_eq!(args, expected);
        }
        _ => panic!("expected an encode plan"),
    }
}

#[test]
fn hold_duration_rounds_to_centiseconds() {
    let cache = VideoCache::new(10);
    let fc = collection(&[7]);
    let plan3 = plan_video(&cache, &fc, 3, &None, "/o");
    match plan3 {
        EncodePlan::Encode { script, .. } => {
            assert_eq!(script, "file 'file:/c/7.jpg'\noutpoint 0.33\n")
        }
        _ => panic!("expected an encode plan"),
    }
    let plan1 = plan_video(&cache, &fc, 1, &None, "/o");
    match plan1 {
        EncodePlan::Encode { script, .. } => {
            assert_eq!(script, "file 'file:/c/7.jpg'\noutpoint 1.00\n")
        }
        _ => panic!("expected an encode plan"),
    }
}

#[test]
fn override_arguments_replace_the_default_vector() {
    let cache = VideoCache::new(10);
    let fc = collection(&[1]);
    let over = Some(vec!["-x".to_string(), "1".to_string()]);
    let plan = plan_video(&cache, &fc, 20, &over, "/o");
    match plan {
        EncodePlan::Encode { key, args, .. } => {
            assert_eq!(args, vec!["-x".to_string(), "1".to_string()]);
            assert_eq!(key.args_override, over);
        }
        _ => panic!("expected an encode plan"),
    }
}

#[test]
fn second_request_hits_the_cache_with_identical_bytes() {
    let mut cache = VideoCache::new(10);
    let fc = collection(&[10, 20, 30]);
    let first = plan_video(&cache, &fc, 20, &None, "/o");
    let key = match first {
        EncodePlan::Encode { key, .. } => key,
        _ => panic!("first request must miss"),
    };
    let encoded: Vec<u8> = vec![9, 9, 9, 1];
    let stored = finish_video(&mut cache, key, true, Some(encoded.clone()));
    assert_eq!(stored.ok(), Some(encoded.clone()));
    let second = plan_video(&cache, &fc, 20, &None, "/other");
    match second {
        EncodePlan::CacheHit(bytes) => assert_eq!(bytes, encoded),
        _ => panic!("second request must hit"),
    }
}

#[test]
fn failed_exit_reports_encoder_error_and_caches_nothing() {
    let mut cache = VideoCache::new(10);
    let fc = collection(&[1]);
    let plan = plan_video(&cache, &fc, 20, &None, "/o");
    let key = match plan {
        EncodePlan::Encode { key, .. } => key,
        _ => panic!("must miss"),
    };
    let r = finish_video(&mut cache, key, false, Some(vec![1]));
    assert!(matches!(r, Err(EncodeError::EncoderFailed)));
    assert!(matches!(
        plan_video(&cache, &fc, 20, &None, "/o"),
        EncodePlan::Encode { .. }
    ));
}

#[test]
fn unreadable_output_reports_its_own_error() {
    let mut cache = VideoCache::new(10);
    let fc = collection(&[1]);
    let plan = plan_video(&cache, &fc, 20, &None, "/o");
    let key = match plan {
        EncodePlan::Encode { key, .. } => key,
        _ => panic!("must miss"),
    };
    let r = finish_video(&mut cache, key, true, None);
    assert!(matches!(r, Err(EncodeError::OutputUnreadable)));
}

#[test]
fn format_parameter_selects_archival_only_on_zip() {
    assert!(matches!(output_format(Some("zip")), OutputFormat::Zip));
    assert!(matches!(output_format(Some("mp4")), OutputFormat::Video));
    assert!(matches!(output_format(Some("ZIP")), OutputFormat::Video));
    assert!(matches!(output_format(None), OutputFormat::Video));
}

#[test]
fn splits_comma_separated_tokens() {
    assert_eq!(split_commas("a,b,c"), vec!["a", "b", "c"]);
    assert_eq!(split_commas("a,,b"), vec!["a", "", "b"]);
    assert_eq!(split_commas(""), vec![""]);
    assert_eq!(split_commas(","), vec!["", ""]);
    assert_eq!(split_commas("-vf,scale=640:480"), vec!["-vf", "scale=640:480"]);
}
