//! Weight files, operation names, metrics and the dashboard.
use vearo::checkpoint::{load_checkpoint, save_checkpoint, LoadError};
use vearo::device::Device;
use vearo::metrics::{done_record, epoch_record, json_str, note_record, run_record, EpochRecord};
use vearo::op::OpType;
use vearo::opname::{op_name, parse_op, record_op_callback};
use vearo::runtime::Runtime;
use vearo::scalar::{Constant, Scalar};
use vearo::shape::Shape;
use vearo::tensor::Tensor;
use vearo::text::{chars_of, parse_number, split, to_text};
use vearo::tui::canvas::Braille;
use vearo::tui::chart::{ascii_rows, braille_rows, PANEL_H, PANEL_W};
use vearo::tui::dashboard::{
    dashboard, finished_line, note_line, side_by_side, summary_body, summary_box, vram_label, Status,
    Summary,
};
use vearo::tui::monitor::{
    frame, panel, peak_mb, plain_line, progress_bar, title_line, History, Point, BAR_W,
};
use vearo::tui::style::{fmt_dur, pad, visible_len, Glyph, Terminal, Theme, ACCENT, GOOD};

/// 32-bit floating point.
#[derive(Clone, Copy, Debug, PartialEq)]
struct F(f32);

impl Scalar for F {
    fn constant_spec(c: Constant) -> Self {
        F::constant(c)
    }

    fn add_spec(a: Self, b: Self) -> Self {
        Scalar::add(a, b)
    }

    fn sub_spec(a: Self, b: Self) -> Self {
        Scalar::sub(a, b)
    }

    fn mul_spec(a: Self, b: Self) -> Self {
        Scalar::mul(a, b)
    }

    fn div_spec(a: Self, b: Self) -> Self {
        Scalar::div(a, b)
    }

    fn mul_add_spec(a: Self, b: Self, c: Self) -> Self {
        a.mul_add(b, c)
    }

    fn gt_spec(a: Self, b: Self) -> bool {
        Scalar::gt(a, b)
    }

    fn eq_zero_spec(a: Self) -> bool {
        a.eq_zero()
    }

    fn exp_spec(a: Self) -> Self {
        a.exp()
    }

    fn ln_spec(a: Self) -> Self {
        a.ln()
    }

    fn sqrt_spec(a: Self) -> Self {
        a.sqrt()
    }

    fn tanh_spec(a: Self) -> Self {
        a.tanh()
    }

    fn cos_spec(a: Self) -> Self {
        a.cos()
    }

    fn powi_spec(a: Self, n: i32) -> Self {
        a.powi(n)
    }

    fn count_spec(n: usize) -> Self {
        F::count(n)
    }

    fn fraction_spec(n: u64) -> Self {
        F::fraction(n)
    }

    fn index_spec(a: Self) -> Option<usize> {
        a.index()
    }

    fn bits_spec(a: Self) -> u32 {
        a.bits()
    }

    fn from_bits_spec(b: u32) -> Self {
        F::from_bits(b)
    }

    fn lemma_bits(_a: Self) {}

    fn constant(c: Constant) -> Self {
        F(match c {
            Constant::Zero => 0.0,
            Constant::One => 1.0,
            Constant::NegOne => -1.0,
            Constant::Half => 0.5,
            Constant::Two => 2.0,
            Constant::Six => 6.0,
            Constant::Pi => std::f32::consts::PI,
            Constant::NegInfinity => f32::NEG_INFINITY,
            Constant::Infinity => f32::INFINITY,
            Constant::Epsilon => f32::EPSILON,
            Constant::MaskFloor => -1e9,
            Constant::SparkHeight => 1.15,
            Constant::GeluScale => 0.797_884_56,
            Constant::GeluCubic => 0.044_715,
            Constant::GeluSlope => 0.134_145,
            Constant::AttentionFloor => 1e-9,
            Constant::ClipFloor => 1e-6,
            Constant::NormFloor => 1e-5,
        })
    }

    fn add(self, b: Self) -> Self {
        F(self.0 + b.0)
    }

    fn sub(self, b: Self) -> Self {
        F(self.0 - b.0)
    }

    fn mul(self, b: Self) -> Self {
        F(self.0 * b.0)
    }

    fn div(self, b: Self) -> Self {
        F(self.0 / b.0)
    }

    fn mul_add(self, b: Self, c: Self) -> Self {
        F(self.0.mul_add(b.0, c.0))
    }

    fn gt(self, b: Self) -> bool {
        self.0 > b.0
    }

    fn eq_zero(self) -> bool {
        self.0 == 0.0
    }

    fn exp(self) -> Self {
        F(self.0.exp())
    }

    fn ln(self) -> Self {
        F(self.0.ln())
    }

    fn sqrt(self) -> Self {
        F(self.0.sqrt())
    }

    fn tanh(self) -> Self {
        F(self.0.tanh())
    }

    fn cos(self) -> Self {
        F(self.0.cos())
    }

    fn powi(self, n: i32) -> Self {
        F(self.0.powi(n))
    }

    fn count(n: usize) -> Self {
        F(n as f32)
    }

    fn fraction(n: u64) -> Self {
        F(n as f32 / 18_446_744_073_709_551_616.0)
    }

    fn index(self) -> Option<usize> {
        if self.0 >= 0.0 {
            Some(self.0.round() as usize)
        } else {
            None
        }
    }

    fn bits(self) -> u32 {
        self.0.to_bits()
    }

    fn from_bits(b: u32) -> Self {
        F(f32::from_bits(b))
    }
}

fn fs(v: &[f32]) -> Vec<F> {
    v.iter().map(|x| F(*x)).collect()
}

fn ready() -> Runtime<F> {
    let mut rt = Runtime::new();
    vearo::init(&mut rt);
    rt
}

fn tensor(v: &[f32], dims: &[usize], rt: &mut Runtime<F>) -> Tensor {
    Tensor::from_f32(&fs(v), Shape::new(dims), rt)
}

fn leaf(v: &[f32], dims: &[usize], rt: &mut Runtime<F>) -> Tensor {
    let t = tensor(v, dims, rt);
    t.set_requires_grad(true, rt);
    t
}

fn vec_of(t: &Tensor, rt: &mut Runtime<F>) -> Vec<f32> {
    let c = t.contiguous(rt);
    c.to_vec_f32(rt).iter().map(|x| x.0).collect()
}

fn grad_of(t: &Tensor, rt: &mut Runtime<F>) -> Vec<f32> {
    let g = t.grad(rt).unwrap();
    vec_of(&g, rt)
}

#[test]
fn test_checkpoint_save_load() {
    let mut rt = ready();
    let t1 = tensor(&[1.0, 2.0, 3.0, 4.0], &[2, 2], &mut rt).to(Device::Cpu, &mut rt);
    let t2 = tensor(&[-0.5, 0.5], &[2], &mut rt).to(Device::Cpu, &mut rt);
    let params = vec![t1, t2];

    let bytes = save_checkpoint(&params, &rt);

    // Overwrite params with zeros
    params[0].copy_from_slice(&fs(&[0.0, 0.0, 0.0, 0.0]), &mut rt);
    params[1].copy_from_slice(&fs(&[0.0, 0.0]), &mut rt);

    assert_eq!(load_checkpoint(&params, &bytes, &mut rt), Ok(()));

    // Verify values
    assert_eq!(params[0].to_vec_f32(&rt), fs(&[1.0, 2.0, 3.0, 4.0]));
    assert_eq!(params[1].to_vec_f32(&rt), fs(&[-0.5, 0.5]));
}

#[test]
fn a_weight_file_is_little_endian() {
    let mut rt = ready();
    let t = tensor(&[1.0], &[1], &mut rt);
    let bytes = save_checkpoint(&[t], &rt);
    assert_eq!(
        bytes,
        vec![1, 0, 0, 0, 1, 0, 0, 0, 1, 0, 0, 0, 1, 0, 0, 0, 0, 0, 128, 63]
    );
}

#[test]
fn a_weight_file_that_does_not_fit_is_refused() {
    let mut rt = ready();
    let a = vec![tensor(&[1.0, 2.0], &[2], &mut rt)];
    let bytes = save_checkpoint(&a, &rt);

    let other = vec![tensor(&[0.0, 0.0, 0.0], &[3], &mut rt)];
    assert_eq!(load_checkpoint(&other, &bytes, &mut rt), Err(LoadError::Shape));
    let none: Vec<Tensor> = vec![];
    assert_eq!(load_checkpoint(&none, &bytes, &mut rt), Err(LoadError::Count));
    assert_eq!(
        load_checkpoint(&a, &bytes[..bytes.len() - 1], &mut rt),
        Err(LoadError::Truncated)
    );
    let mut longer = bytes.clone();
    longer[12] = 3;
    assert_eq!(load_checkpoint(&a, &longer, &mut rt), Err(LoadError::Truncated));
    longer.extend_from_slice(&[0, 0, 0, 0]);
    assert_eq!(load_checkpoint(&a, &longer, &mut rt), Err(LoadError::Length));
    assert_eq!(load_checkpoint(&a, &bytes, &mut rt), Ok(()));
    assert_eq!(a[0].to_vec_f32(&rt), fs(&[1.0, 2.0]));
}

#[test]
fn names_of_operations_are_read_back() {
    assert!(matches!(parse_op("add", 0), Some(OpType::Add)));
    assert!(matches!(parse_op("cross_entropy", 0), Some(OpType::CrossEntropy)));
    assert!(matches!(
        parse_op("transpose_0_2", 0),
        Some(OpType::Transpose { dim0: 0, dim1: 2 })
    ));
    assert!(matches!(
        parse_op("sum_1_1", 0),
        Some(OpType::Sum { dim: 1, keep_dim: true })
    ));
    assert!(matches!(
        parse_op("mean_1_0", 0),
        Some(OpType::Mean { dim: 1, keep_dim: false })
    ));
    assert!(matches!(parse_op("layernorm_x", 9), Some(OpType::LayerNorm { eps_bits: 9 })));
    assert!(matches!(
        parse_op("conv2d_2_1", 0),
        Some(OpType::Conv2d { stride: 2, padding: 1 })
    ));
    assert!(matches!(
        parse_op("batchnorm_true_x", 7),
        Some(OpType::BatchNorm { training: true, eps_bits: 7 })
    ));
    match parse_op("permute_2,0,1", 0) {
        Some(OpType::Permute { axes }) => assert_eq!(axes, vec![2, 0, 1]),
        _ => panic!("not a permutation"),
    }
    assert!(parse_op("unknown", 0).is_none());
    assert!(parse_op("softmax_x", 0).is_none());

    let name = op_name(&OpType::MaxPool2d { kernel_size: 3, stride: 2, padding: 1 }, "").unwrap();
    assert_eq!(to_text(&name), "maxpool2d_3_2_1");
    let name = op_name(&OpType::Permute { axes: vec![10, 0] }, "").unwrap();
    assert_eq!(to_text(&name), "permute_10,0");
    let name = op_name(&OpType::BatchNorm { training: false, eps_bits: 0 }, "0.1").unwrap();
    assert_eq!(to_text(&name), "batchnorm_false_0.1");
    assert!(op_name(&OpType::Checkpoint, "").is_none());
}

#[test]
fn an_operation_can_be_recorded_by_name() {
    let mut rt = ready();
    let x = leaf(&[1.0, 2.0], &[2], &mut rt);
    let y = tensor(&[1.0, 4.0], &[2], &mut rt);
    record_op_callback("mul", 0, &[&x, &x], &y, &mut rt);
    assert_eq!(rt.tape.nodes.len(), 2);
    assert!(matches!(rt.tape.nodes[1].op, OpType::Mul));
    assert!(y.node_id(&rt).is_some());
    assert!(x.node_id(&rt).is_some());
}

#[test]
fn numbers_and_fields_of_a_text() {
    assert_eq!(parse_number(&chars_of("120")), Some(120));
    assert_eq!(parse_number(&chars_of("+7")), Some(7));
    assert_eq!(parse_number(&chars_of("")), None);
    assert_eq!(parse_number(&chars_of("1a")), None);
    assert_eq!(parse_number(&chars_of("99999999999999999999999")), None);
    let parts = split(&chars_of("a_b__c"), '_');
    let texts: Vec<String> = parts.iter().map(to_text).collect();
    assert_eq!(texts, vec!["a", "b", "", "c"]);
}

#[test]
fn records_are_json() {
    assert_eq!(json_str("a\"b\\c\n\t\r\u{1}\u{e9}"), "\"a\\\"b\\\\c\\n\\t\\r\\u0001\u{e9}\"");
    assert_eq!(
        run_record("t", "cuda:0", 12, 34),
        "{\"type\":\"run\",\"title\":\"t\",\"device\":\"cuda:0\",\"total_epochs\":12,\"started\":34}"
    );
    let e = EpochRecord {
        epoch: 3,
        train_loss: "0.5",
        val_loss: None,
        val_acc: Some("0.75"),
        vram_mb: Some(120),
        ram_gb: "1.5",
        elapsed_s: "2.0",
        ts: 99,
    };
    assert_eq!(
        epoch_record(&e),
        "{\"type\":\"epoch\",\"epoch\":3,\"train_loss\":0.5,\"val_loss\":null,\"val_acc\":0.75,\
         \"vram_mb\":120,\"ram_gb\":1.5,\"elapsed_s\":2.0,\"ts\":99}"
    );
    assert_eq!(note_record("new best", 5), "{\"type\":\"note\",\"text\":\"new best\",\"ts\":5}");
    assert_eq!(
        done_record(Some("0.9"), 4, "10.0", 6),
        "{\"type\":\"done\",\"best_acc\":0.9,\"best_epoch\":4,\"elapsed_s\":10.0,\"ts\":6}"
    );
}

#[test]
fn a_record_is_one_line() {
    let note = note_record("two\nlines\r\n", 5);
    assert_eq!(note, "{\"type\":\"note\",\"text\":\"two\\nlines\\r\\n\",\"ts\":5}");
    assert!(!note.contains('\n'));
    assert!(!run_record("a\nb", "c\nd", 1, 2).contains('\n'));
}

#[test]
fn dots_of_the_canvas() {
    let mut c = Braille::new(2, 1);
    assert_eq!((c.width(), c.height()), (4, 4));
    c.set(0, 0);
    c.set(3, 3);
    c.set(9, 9);
    assert_eq!(c.rows(), vec!["\u{2801}\u{2880}"]);

    let mut c = Braille::new(2, 1);
    c.line(0, 0, 3, 3);
    assert_eq!(c.rows(), vec!["\u{2811}\u{2884}"]);

    let mut c = Braille::new(1, 1);
    c.plot(&fs(&[1.0]));
    assert_eq!(c.rows(), vec!["\u{2804}"]);
    let mut c = Braille::new(1, 1);
    c.plot(&fs(&[0.0, 1.0]));
    // from the bottom left to the top right
    assert_eq!(c.rows()[0].chars().count(), 1);
    let dots = c.rows()[0].chars().next().unwrap() as u32 - 0x2800;
    assert!(dots & 0x40 != 0 && dots & 0x08 != 0);
}

#[test]
fn widths_ignore_escapes() {
    let t = Theme { unicode: true, color: true };
    let s = t.paint("abc", (1, 22, 133));
    assert_eq!(s, "\x1b[38;2;1;22;133mabc\x1b[0m");
    assert_eq!(visible_len(&s), 3);
    assert_eq!(visible_len(&t.bold("abcd", ACCENT)), 4);
    assert_eq!(pad(&s, 5), format!("{}  ", s));
    assert_eq!(pad("abcdef", 5), "abcdef");
    let plain = Theme { unicode: false, color: false };
    assert_eq!(plain.paint("abc", GOOD), "abc");
    assert_eq!(plain.glyph(Glyph::TopLeft), "+");
    assert_eq!(t.glyph(Glyph::Horizontal), "\u{2500}");
}

#[test]
fn the_theme_follows_the_terminal() {
    let t = Terminal { forced_ascii: false, dumb: false, utf8: true, no_color: false };
    assert_eq!(Theme::detect(t), Theme { unicode: true, color: true });
    assert_eq!(
        Theme::detect(Terminal { no_color: true, ..t }),
        Theme { unicode: true, color: false }
    );
    assert_eq!(
        Theme::detect(Terminal { utf8: false, ..t }),
        Theme { unicode: false, color: true }
    );
    assert_eq!(
        Theme::detect(Terminal { dumb: true, ..t }),
        Theme { unicode: false, color: false }
    );
    assert_eq!(
        Theme::detect(Terminal { forced_ascii: true, ..t }),
        Theme { unicode: false, color: false }
    );
}

#[test]
fn durations_and_lines() {
    assert_eq!(fmt_dur(0), "0:00");
    assert_eq!(fmt_dur(75), "1:15");
    assert_eq!(fmt_dur(3661), "1:01:01");
    assert_eq!(
        plain_line(7, 20, "0.5000", Some("0.6000"), Some("91.0")),
        "epoch   7/20 | train 0.5000 | val 0.6000 | acc 91.0%"
    );
    assert_eq!(plain_line(120, 200, "0.1", None, None), "epoch 120/200 | train 0.1");
    assert_eq!(peak_mb(0), None);
    assert_eq!(peak_mb(3 * 1024 * 1024 + 5), Some(3));
    let (text, lines) = frame(&vec!["a".to_string(), "b".to_string()], 0);
    assert_eq!(lines, 2);
    assert!(text.contains('a') && text.ends_with('\n'));
    assert!(frame(&vec!["a".to_string()], 2).0.starts_with("\x1b[2A"));
}

#[test]
fn bars_and_sparklines() {
    let t = Theme { unicode: false, color: false };
    let colors = vec![GOOD; BAR_W];
    let bar = progress_bar(&t, 3, &colors);
    assert_eq!(bar.chars().filter(|c| *c == '#').count(), 3);
    assert_eq!(bar.chars().filter(|c| *c == '.').count(), BAR_W - 3);
    assert_eq!(t.spark(&fs(&[]), GOOD), "-".repeat(12));
    let u = Theme { unicode: true, color: false };
    let s = u.spark(&fs(&[0.0, 1.0]), GOOD);
    assert_eq!(s.chars().next(), Some('\u{2581}'));
    assert_eq!(s.chars().count(), 2);
    assert!(u.delta(F(-0.5), "0.5", true).ends_with("0.5"));
    assert!(u.delta(F(-0.5), "0.5", true).starts_with('\u{25bc}'));
    assert!(title_line(&t, "run", "cpu", 2, 9).contains("epoch 2/9"));
}

#[test]
fn charts_fill_their_panel() {
    let rows = braille_rows(&vec![fs(&[0.0, 1.0, 2.0]), fs(&[2.0, 1.0, 0.0])]);
    assert_eq!(rows.len(), PANEL_H);
    assert!(rows.iter().all(|r| r.len() == PANEL_W));
    let rows = ascii_rows(&fs(&[0.0, 1.0, 2.0]));
    assert_eq!(rows.len(), PANEL_H);
    let t = Theme { unicode: true, color: false };
    let lines = panel(&t, "loss", &vec![fs(&[0.0, 1.0])], &[GOOD]);
    assert_eq!(lines.len(), PANEL_H + 2);
    assert!(lines[0].contains("loss"));
    assert_eq!(visible_len(&lines[0]), visible_len(&lines[1]));
}

#[test]
fn the_best_epoch_is_remembered() {
    let mut h: History<F> = History::new();
    let point = |acc: Option<f32>, vram: Option<usize>| Point {
        train_loss: F(1.0),
        val_loss: None,
        val_acc: acc.map(F),
        vram_mb: vram,
        ram_gb: F(0.5),
    };
    h.record(1, point(Some(0.5), None));
    h.record(2, point(Some(0.75), Some(100)));
    h.record(3, point(None, Some(300)));
    h.record(4, point(Some(0.75), Some(200)));
    assert_eq!(h.best_acc, F(0.75));
    assert_eq!(h.best_epoch, 2);
    assert_eq!(h.peak_vram(), Some(300));
    assert_eq!(h.train_losses().len(), 4);
    assert_eq!(h.val_losses().len(), 0);
    assert_eq!(h.val_accs(), fs(&[0.5, 0.75, 0.75]));
}

#[test]
fn the_dashboard_is_put_together() {
    let t = Theme { unicode: false, color: false };
    let s = Status {
        title: "run",
        device: "cpu",
        epoch: 2,
        total: 4,
        bar: "[##..]",
        percent: " 50",
        eta: "0:10",
        train_loss: "0.5000",
        change: "v0.1000",
        val_loss: None,
        val_acc: Some("91.00"),
        best: Some(("92.00", 1)),
        vram_spark: "--",
        vram_mb: None,
        ram_spark: "==",
        ram_gb: "1.5",
        elapsed: "0:10",
        epoch_secs: "5.0",
        note: "saved",
    };
    let left = vec!["a".to_string(), "b".to_string(), "c".to_string()];
    let right = vec!["d".to_string(), "e".to_string()];
    assert_eq!(side_by_side(&left, &right), vec![" a  d", " b  e"]);
    let lines = dashboard(&t, &s, &left, &right);
    assert_eq!(lines.len(), 11);
    assert!(lines[0].contains("epoch 2/4"));
    assert_eq!(lines[1], format!(" {}", "-".repeat(78)));
    assert_eq!(lines[2], " [##..]  50%  eta 0:10");
    assert_eq!(lines[4], " a  d");
    assert_eq!(
        lines[6],
        format!(" {:<38}  now 91.00%   best 92.00% (ep 1)", "  train 0.5000 v0.1000  val -")
    );
    assert_eq!(lines[8], format!(" {:<38}  ram == 1.5 GB", "  vram -- -"));
    assert_eq!(lines[9], "  elapsed 0:10   per epoch 5.0s");
    assert_eq!(lines[10], "  * saved");
    assert_eq!(note_line(&t, ""), "");
    assert_eq!(note_line(&t, &"x".repeat(100)), format!("  * {}", "x".repeat(72)));
    assert_eq!(vram_label(Some(12)), "12 MiB");
    let closing = summary_box(&t, "run", &vec!["4 epochs".to_string()]);
    assert_eq!(closing.len(), 5);
    assert_eq!(closing[1], format!("+{}+", "-".repeat(78)));
    assert_eq!(closing[2], format!("| {:<76} |", "run complete"));
    assert_eq!(closing[3], format!("| {:<76} |", "4 epochs"));
}

#[test]
fn a_run_is_summed_up() {
    let s = Summary {
        epochs: 4,
        took: "1m 05s",
        epoch_secs: "16.2",
        best: "91.50",
        best_epoch: 3,
        peak_vram: Some(640),
        peak_ram: "1.5",
    };
    assert_eq!(
        summary_body(&s),
        vec![
            "4 epochs in 1m 05s   (16.2s/epoch)",
            "best val acc 91.50% at epoch 3",
            "peak vram 640 MiB   peak host ram 1.5 GB",
        ]
    );
    assert_eq!(
        finished_line("run", &s),
        "\nrun finished: 4 epochs in 1m 05s | best val acc 91.50% at epoch 3"
    );

    let mut h: History<F> = History::new();
    assert_eq!(h.loss_change(), F(0.0));
    for (i, loss) in [2.0, 1.5].iter().enumerate() {
        let vram_mb = if i == 0 { None } else { Some(7) };
        h.record(
            i + 1,
            Point { train_loss: F(*loss), val_loss: None, val_acc: None, vram_mb, ram_gb: F(0.5) },
        );
    }
    assert_eq!(h.loss_change(), F(-0.5));
    assert_eq!(h.vrams(), vec![7]);
    assert_eq!(h.rams(), vec![F(0.5), F(0.5)]);
}

#[test]
fn a_best_accuracy_that_is_no_number_is_null() {
    assert_eq!(
        done_record(None, 0, "0.5", 6),
        "{\"type\":\"done\",\"best_acc\":null,\"best_epoch\":0,\"elapsed_s\":0.5,\"ts\":6}"
    );
}

#[test]
fn a_line_has_one_pixel_more_than_its_longer_side() {
    let ends: [(isize, isize, isize, isize); 5] =
        [(0, 0, 7, 3), (7, 3, 0, 0), (1, 6, 2, 0), (4, 4, 4, 4), (0, 7, 7, 0)];
    for (x0, y0, x1, y1) in ends {
        let mut c = Braille::new(4, 2);
        c.line(x0, y0, x1, y1);
        let rows = c.rows();
        let dots = |ch: char| (ch as u32 - 0x2800).count_ones();
        let lit: u32 = rows.iter().flat_map(|r| r.chars()).map(dots).sum();
        let longer = (x1 - x0).abs().max((y1 - y0).abs());
        assert_eq!(lit as isize, longer + 1);
    }
}
