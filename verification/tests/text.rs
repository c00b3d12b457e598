//! Text, tokens, architectures, processors and backends for attention.

use blend::attention::{auto_pick, known_backends, AttnKind};
use blend::config::{MoeConfig, ModelConfig};
use blend::dtype::Dtype;
use blend::error::FtError;
use blend::kernel;
use blend::models::{is_known, KNOWN_ARCHS};
use blend::order;
use blend::text;
use blend::tokenizer::{Tokenizer, WhitespaceTokenizer};
use blend::topology::parse_proc_cpuinfo;

#[test]
fn roundtrip() {
    let t = WhitespaceTokenizer::with_words(&["hello", "world"]);
    let ids = t.encode("hello world");
    assert_eq!(ids, vec![0, 1]);
    assert_eq!(t.decode(&ids), "hello world");
    assert_eq!(t.vocab_size(), 2);
}

#[test]
fn unknown_words_dropped() {
    let t = WhitespaceTokenizer::with_words(&["hello"]);
    assert_eq!(t.encode("hello xyz"), vec![0]);
}

#[test]
fn tokens_without_words_and_repeated_words() {
    let t = WhitespaceTokenizer::with_words(&["a", "b", "a"]);
    assert_eq!(t.vocab_size(), 2);
    assert_eq!(t.encode("  b\ta\u{2003}b\n"), vec![1, 0, 1]);
    assert_eq!(t.decode(&[0, 9, 1]), "a b");
    let empty = WhitespaceTokenizer::default();
    assert_eq!(empty.encode("a"), Vec::<u32>::new());
    assert_eq!(empty.decode(&[0]), "");
}

#[test]
fn auto_pick_dsa() {
    assert_eq!(auto_pick(AttnKind::Dsa), "dsv4_sparse");
}

#[test]
fn fallback_fa() {
    assert_eq!(auto_pick(AttnKind::LinearState), "fa");
}

#[test]
fn backends_for_attention() {
    assert_eq!(auto_pick(AttnKind::Full), "fa");
    assert_eq!(auto_pick(AttnKind::Swa), "fa");
    let names: Vec<&str> = known_backends().iter().map(|b| b.name).collect();
    assert_eq!(names, vec!["fa", "trtllm", "dsv4_sparse", "dsa"]);
}

#[test]
fn known_archs() {
    assert!(is_known("DeepseekV4ForCausalLM"));
    assert!(!is_known("LlamaForCausalLM"));
}

#[test]
fn all_known_archs_are_known() {
    for a in KNOWN_ARCHS {
        assert!(is_known(a));
    }
    assert!(!is_known(""));
}

#[test]
fn detection_runs() {
    let _ = kernel::detect();
}

#[test]
fn statuses_of_kernels() {
    assert!(kernel::check(0, "cudaMalloc").is_ok());
    assert_eq!(
        kernel::check(-2, "cudaMalloc").unwrap_err().message(),
        "kernel backend: cudaMalloc: cuda status -2"
    );
    assert_eq!(
        kernel::kernel_result(7, "ft_vector_add").unwrap_err().message(),
        "kernel backend: ft_vector_add: 7"
    );
    assert_eq!((kernel::device_total(3), kernel::device_total(-1)), (3, 0));
    assert_eq!(kernel::name_bytes(&[65, 66, 0, 67]), vec![65, 66]);
    assert_eq!(kernel::name_bytes(&[65, 66]), vec![65, 66]);
    assert_eq!(kernel::device_name(&[65, 0xff, 0, 67]), "A\u{fffd}");
    assert_eq!(kernel::expert_bytes(4096, 2048, 2), 3 * 4096 * 2048 * 2);
    assert_eq!(kernel::next_slot(130, 64), 2);
}

#[test]
fn errors_are_described() {
    assert_eq!(FtError::UnsupportedModel("x".into()).message(), "model not supported: x");
    assert_eq!(FtError::Io("gone".into()).message(), "io: gone");
    assert_eq!(FtError::Invalid("y".into()).message(), "invalid request: y");
}

#[test]
fn widths_of_elements() {
    assert_eq!(Dtype::F32.bits(), 32);
    assert_eq!(Dtype::Fp8E4m3.bits(), 16);
    assert_eq!(Dtype::NvFp4.bits(), 4);
    assert_eq!(Dtype::DsFp4.bits_per_param(), 5);
    assert_eq!(Dtype::Q4_0.bits_per_param(), 4);
    assert_eq!(Dtype::I32.bits_per_param(), 32);
}

fn config(moe: Option<MoeConfig>) -> ModelConfig {
    ModelConfig {
        arch: "x".into(),
        num_layers: 3,
        hidden_size: 8,
        vocab_size: 10,
        max_seq_len: 100,
        moe,
        quant: None,
        attn_kind: "full".into(),
    }
}

#[test]
fn layers_with_experts() {
    let moe = |layers: Vec<usize>| {
        Some(MoeConfig { num_experts: 4, num_experts_per_tok: 2, expert_hidden: 8, moe_layers: layers })
    };
    assert_eq!(config(None).moe_layers(), Vec::<usize>::new());
    assert_eq!(config(moe(vec![])).moe_layers(), vec![0, 1, 2]);
    assert_eq!(config(moe(vec![1, 7])).moe_layers(), vec![1, 7]);
}

#[test]
fn words_and_lines() {
    assert_eq!(text::split_whitespace(" a  bc\n\u{3000}d "), vec!["a", "bc", "d"]);
    assert_eq!(text::split_whitespace("  "), Vec::<String>::new());
    let lines: Vec<String> =
        text::text_lines("a\r\n\nb\r").iter().map(|l| l.iter().collect()).collect();
    assert_eq!(lines, vec!["a", "", "b\r"]);
    assert_eq!(text::joined(&["x".to_string(), "y".to_string()]), "x y");
}

#[test]
fn words_split_as_the_standard_library_splits() {
    for s in ["", " ", "a", " a b ", "x\u{85}y\u{a0}z", "\u{1680}q\u{202f}r\u{205f}s\u{2028}t", "\u{200b}u v"] {
        let want: Vec<String> = s.split_whitespace().map(|w| w.to_string()).collect();
        assert_eq!(text::split_whitespace(s), want);
        let want: Vec<String> = s.lines().map(|w| w.to_string()).collect();
        let got: Vec<String> = text::text_lines(s).iter().map(|l| l.iter().collect()).collect();
        assert_eq!(got, want);
    }
}

#[test]
fn numbers_are_read_back() {
    for n in [0u64, 9, 10, 4096, u64::MAX] {
        let mut s = String::new();
        text::push_dec(&mut s, n);
        assert_eq!(s, n.to_string());
        let cs: Vec<char> = s.chars().collect();
        assert_eq!(text::parse_number(&cs, u64::MAX), Some(n));
    }
    let parse = |s: &str| {
        let cs: Vec<char> = s.chars().collect();
        text::parse_number(&cs, 255)
    };
    assert_eq!(parse("+7"), Some(7));
    assert_eq!(parse("0255"), Some(255));
    assert_eq!(parse("256"), None);
    assert_eq!(parse(""), None);
    assert_eq!(parse("+"), None);
    assert_eq!(parse("-1"), None);
    assert_eq!(parse("1 "), None);
}

#[test]
fn names_are_sorted() {
    let v = vec!["b".to_string(), "a-2".to_string(), "a".to_string(), "é".to_string(), "a-10".to_string()];
    let mut want = v.clone();
    want.sort();
    assert_eq!(order::sort_names(v), want);
}

#[test]
fn cores_are_counted_once() {
    let info = "processor\t: 0\nphysical id\t: 0\ncore id\t\t: 0\n\n\
                processor\t: 1\nphysical id\t: 0\ncore id\t\t: 1\n\n\
                processor\t: 2\nphysical id\t: 0\ncore id\t\t: 0\n\n\
                processor\t: 3\nphysical id\t: 1\ncore id\t\t: 0\n";
    assert_eq!(parse_proc_cpuinfo(info), Some(3));
    assert_eq!(parse_proc_cpuinfo("processor : 0\nmodel name : x\n"), None);
    assert_eq!(parse_proc_cpuinfo("physical id : 1\ncore id : x\n"), None);
    assert_eq!(parse_proc_cpuinfo(""), None);
}

#[test]
fn tokens_come_back() {
    let t = WhitespaceTokenizer::with_words(&["hello", "world", "again"]);
    for ids in [vec![], vec![2], vec![0, 1], vec![1, 1, 2, 0]] {
        assert_eq!(t.encode(&t.decode(&ids)), ids);
    }
    assert_eq!(t.decode(&[0, 3, u32::MAX, 1]), "hello world");
    assert_eq!(t.decode(&t.encode("  again\thello\n")), "again hello");
}
