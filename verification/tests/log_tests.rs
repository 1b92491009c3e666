use neuraltype::runlog::{read_gpu_line, read_line, LogLine, Setting};

fn setting(line: &str) -> Option<(String, String)> {
    match read_line(line) {
        LogLine::Setting(s, v) => {
            let name = match s {
                Setting::Device => "device",
                Setting::Rows => "rows",
                Setting::Model => "model",
                Setting::Lr => "lr",
                Setting::Batch => "batch",
                Setting::Oversample => "oversample",
            };
            Some((name.to_string(), v))
        }
        _ => None,
    }
}

#[test]
fn settings_are_trimmed() {
    assert_eq!(setting("device:  Cuda(0) "), Some(("device".into(), "Cuda(0)".into())));
    assert_eq!(setting("batch size: 64"), Some(("batch".into(), "64".into())));
    assert_eq!(setting("oversampling x3"), Some(("oversample".into(), "x3".into())));
    assert_eq!(setting("lr:"), Some(("lr".into(), "".into())));
    assert_eq!(setting("rows: 9 train, 1 val"), Some(("rows".into(), "9 train, 1 val".into())));
}

#[test]
fn resumed_and_other_lines() {
    assert!(matches!(read_line("resumed from out/checkpoint.safetensors"), LogLine::Resumed));
    assert!(matches!(read_line("saved out/checkpoint.safetensors"), LogLine::Other));
    assert!(matches!(read_line(""), LogLine::Other));
    assert!(matches!(read_line("epoch 3 train loss"), LogLine::Other));
}

#[test]
fn epoch_line_fields() {
    let l = "epoch   7  train loss 0.01234  val mse 0.02000  val IoU 0.8123  (42s)";
    match read_line(l) {
        LogLine::Epoch(e) => {
            assert_eq!(e.raw, 7);
            assert_eq!(e.loss, "0.01234");
            assert_eq!(e.mse, "0.02000");
            assert_eq!(e.iou, "0.8123");
            assert_eq!(e.secs, "42");
        }
        _ => panic!("not an epoch line"),
    }
    match read_line("epoch x train loss 1 val mse 2 val IoU 3 (4s)") {
        LogLine::Epoch(e) => assert_eq!(e.raw, 0),
        _ => panic!("not an epoch line"),
    }
}

#[test]
fn gpu_query_output() {
    let g = read_gpu_line(" 87, 10240, 24576, 71, 301.52\n").unwrap();
    assert_eq!(g.util, 87);
    assert_eq!(g.mem_used, "10240");
    assert_eq!(g.mem_total, "24576");
    assert_eq!(g.temp, 71);
    assert_eq!(g.watts, "301.52");
    assert!(read_gpu_line("1, 2, 3").is_none());
    let bad = read_gpu_line("[N/A], 1, 2, 99999, 3").unwrap();
    assert_eq!((bad.util, bad.temp), (0, 0));
}
