//! Files with tensors, the weights of layers, and recorded inputs.

use blend::bf16;
use blend::config::ModelConfig;
use blend::error::FtError;
use blend::loader::{self, SafeTensorFile};
use blend::parity;
use blend::weights::{self, Layer, Part, Shape};

/// The bytes of a file with one tensor of 32-bit numbers, 2 by 3.
fn fixture() -> Vec<u8> {
    let vals: [f32; 6] = [1.0, 2.0, 3.0, 4.0, 5.0, 6.0];
    let mut data = Vec::new();
    for v in vals {
        data.extend_from_slice(&v.to_le_bytes());
    }
    let header = format!(
        r#"{{"w":{{"dtype":"F32","shape":[2,3],"data_offsets":[0,{}]}}}}"#,
        data.len()
    );
    file(&header, &data)
}

fn file(header: &str, data: &[u8]) -> Vec<u8> {
    let pad = (8 - (header.len() % 8)) % 8;
    let mut out = Vec::new();
    out.extend_from_slice(&((header.len() + pad) as u64).to_le_bytes());
    out.extend_from_slice(header.as_bytes());
    out.extend(std::iter::repeat(b' ').take(pad));
    out.extend_from_slice(data);
    out
}

fn refused(r: Result<SafeTensorFile, FtError>) -> String {
    match r {
        Err(FtError::Invalid(m)) => m,
        _ => panic!("must be refused"),
    }
}

#[test]
fn parse_and_read_f32() {
    let bytes = fixture();
    let st = SafeTensorFile::open("blend-st.st", &bytes).unwrap();
    assert_eq!(st.names(), vec!["w"]);
    let tv = st.tensor("w").unwrap();
    assert_eq!(tv.shape, &[2, 3]);
    assert_eq!(tv.numel(), 6);
    let read: Vec<f32> = tv.as_f32_bits().unwrap().into_iter().map(f32::from_bits).collect();
    assert_eq!(read, vec![1.0, 2.0, 3.0, 4.0, 5.0, 6.0]);
    assert!(st.tensor("missing").is_none());
}

#[test]
fn header_entries_are_sorted_and_metadata_is_skipped() {
    let header = r#"{"z":{"dtype":"BF16","shape":[1],"data_offsets":[2,4]},
        "__metadata__":{"format":"pt"},
        "a":["F16",[],[0,2]],
        "b":{"data_offsets":[0,4],"shape":[2],"dtype":"I64","extra":true}}"#;
    let bytes = file(header, &[1, 2, 3, 4]);
    let st = SafeTensorFile::open("f", &bytes).unwrap();
    assert_eq!(st.names(), vec!["a", "b", "z"]);
    assert_eq!(st.meta("z").unwrap().data_offsets, (2, 4));
    assert_eq!(st.tensor("z").unwrap().as_u16().unwrap(), vec![0x0403]);
    assert_eq!(st.tensor("a").unwrap().numel(), 1);
    assert_eq!(st.tensor("z").unwrap().as_f32_from_bf16_bits().unwrap(), vec![0x0403_0000]);
    assert_eq!(
        st.tensor("b").unwrap().as_u16().unwrap_err().message(),
        "invalid request: dtype I64 not u16"
    );
    assert_eq!(
        st.tensor("b").unwrap().as_f32_bits().unwrap_err().message(),
        "invalid request: dtype I64 not supported as f32"
    );
    assert!(st.in_bounds("z") && st.in_bounds("missing"));
}

#[test]
fn last_of_two_members_of_a_name_counts() {
    let header = r#"{"a":["F16",[1],[0,2]],"a":["F16",[1],[2,4]]}"#;
    let bytes = file(header, &[1, 2, 3, 4]);
    let st = SafeTensorFile::open("f", &bytes).unwrap();
    assert_eq!(st.names(), vec!["a"]);
    assert_eq!(st.tensor("a").unwrap().data, &[3, 4]);
}

#[test]
fn malformed_files_are_refused() {
    assert_eq!(refused(SafeTensorFile::open("p", &[1, 2, 3])), "p: too small");
    assert_eq!(refused(SafeTensorFile::open("p", &[1, 0, 0, 0, 0, 0, 0, 0])), "p: bad header length");
    let bytes = file("[]", &[]);
    assert!(refused(SafeTensorFile::open("p", &bytes)).starts_with("p: bad header json: invalid type"));
    let bytes = file("{", &[]);
    assert!(refused(SafeTensorFile::open("p", &bytes)).starts_with("p: bad header json: EOF"));
    for entry in [
        "1",
        r#"{"dtype":"F32","shape":[1]}"#,
        r#"{"dtype":1,"shape":[],"data_offsets":[0,0]}"#,
        r#"{"dtype":"F32","shape":[-1],"data_offsets":[0,0]}"#,
        r#"{"dtype":"F32","shape":[],"data_offsets":[0,0,0]}"#,
        r#"["F32",[]]"#,
    ] {
        let bytes = file(&format!(r#"{{"t":{entry}}}"#), &[]);
        assert!(refused(SafeTensorFile::open("p", &bytes)).starts_with("t: "));
    }
}

#[test]
fn tensor_outside_of_its_file_is_seen() {
    let bytes = file(r#"{"a":["F16",[1],[2,99]],"b":["F16",[1],[4,2]]}"#, &[1, 2, 3, 4]);
    let st = SafeTensorFile::open("f", &bytes).unwrap();
    assert!(!st.in_bounds("a"));
    assert!(!st.in_bounds("b"));
}

#[test]
fn tensors_are_located() {
    let index = br#"{"weight_map":{"a":"x-1.safetensors","b":7,"c":"/abs/y"}}"#;
    assert_eq!(loader::locate_tensor("/m", index, "a").unwrap(), "/m/x-1.safetensors");
    assert_eq!(loader::locate_tensor("/m/", index, "a").unwrap(), "/m/x-1.safetensors");
    assert_eq!(loader::locate_tensor("/m", index, "c").unwrap(), "/abs/y");
    for name in ["b", "zzz"] {
        assert_eq!(
            loader::locate_tensor("/m", index, name).unwrap_err().message(),
            format!("invalid request: tensor not in index: {name}")
        );
    }
    assert!(loader::locate_tensor("/m", b"[]", "a").is_err());
    let e = loader::locate_tensor("/m", b"{]", "a").unwrap_err().message();
    assert!(e.starts_with("invalid request: index json: key must be a string"), "{e}");
}

#[test]
fn parsed_index_gives_the_file() {
    let v: serde_json::Value = serde_json::from_str(r#"{"weight_map":{"t":"s"}}"#).unwrap();
    assert_eq!(loader::locate_in("r", Ok(&v), "t").unwrap(), "r/s");
    let e = loader::locate_in("r", Err("why".into()), "t").unwrap_err();
    assert_eq!(e.message(), "invalid request: index json: why");
}

#[test]
fn paths_join_as_the_standard_library_joins() {
    for (a, b) in [("a", "b"), ("a/", "b"), ("", "b"), ("a", "/b"), ("a", ""), ("", ""), ("/", "x/y")] {
        let want = std::path::Path::new(a).join(b).display().to_string();
        assert_eq!(loader::join_path(a, b), want);
    }
}

#[test]
fn tensor_files_of_a_directory() {
    let cfg = ModelConfig {
        arch: "x".into(),
        num_layers: 1,
        hidden_size: 1,
        vocab_size: 1,
        max_seq_len: 1,
        moe: None,
        quant: None,
        attn_kind: String::new(),
    };
    let names = ["m-2.safetensors", "config.json", ".safetensors", "m-1.safetensors", "safetensors", "..safetensors"];
    let d = loader::discover("/m", cfg, names.iter().map(|s| s.to_string()).collect());
    assert_eq!(d.safetensors, vec!["/m/..safetensors", "/m/m-1.safetensors", "/m/m-2.safetensors"]);
    assert_eq!(d.root, "/m");
    assert_eq!(d.config.arch, "x");
}

#[test]
fn halves_are_rounded_to_even() {
    assert_eq!(bf16::narrow(1.0f32.to_bits()), 0x3f80);
    assert_eq!(bf16::widen(0x3f80), 1.0f32.to_bits());
    assert_eq!(bf16::narrow(0x3f80_8000), 0x3f80);
    assert_eq!(bf16::narrow(0x3f81_8000), 0x3f82);
    assert_eq!(bf16::narrow(0x3f80_8001), 0x3f81);
    assert_eq!(bf16::narrow(0x3f80_7fff), 0x3f80);
    assert!(!bf16::rounds(u32::MAX));
    assert!(bf16::rounds(0xffff_7fff));
    for b in [0u16, 1, 0x7f80, 0x8000, 0xffff] {
        assert_eq!(bf16::narrow(bf16::widen(b)), b);
    }
}

#[test]
fn weights_of_32_bits_are_rounded() {
    let bytes = fixture();
    let st = SafeTensorFile::open("f", &bytes).unwrap();
    let got = st.tensor("w").unwrap().as_bf16().unwrap();
    assert_eq!(got, vec![0x3f80, 0x4000, 0x4040, 0x4080, 0x40a0, 0x40c0]);
}

#[test]
fn tensors_are_named() {
    assert_eq!(weights::tensor_name(12, Part::InputNorm), "model.layers.12.input_layernorm.weight");
    assert_eq!(
        weights::tensor_name(0, Part::PostNorm),
        "model.layers.0.post_attention_layernorm.weight"
    );
    assert_eq!(weights::tensor_name(3, Part::Output), "model.layers.3.self_attn.o_proj.weight");
    assert_eq!(weights::tensor_name(3, Part::KeyNorm), "model.layers.3.self_attn.k_norm.weight");
    assert_eq!(weights::tensor_name(3, Part::Gate), "model.layers.3.mlp.gate.weight");
    assert_eq!(
        weights::tensor_name(7, Part::ExpertDown(105)),
        "model.layers.7.mlp.experts.105.down_proj.weight"
    );
    let parts = weights::parts_of_layer(2);
    assert_eq!(parts.len(), 15);
    assert_eq!(parts[9..], [
        Part::ExpertGate(0),
        Part::ExpertUp(0),
        Part::ExpertDown(0),
        Part::ExpertGate(1),
        Part::ExpertUp(1),
        Part::ExpertDown(1),
    ]);
}

#[test]
fn weights_go_to_their_places() {
    let s = Shape { hidden: 2, experts: 2, inter: 1 };
    let mut l = Layer::empty(s);
    assert_eq!((l.w13.len(), l.w2.len(), l.gate.len()), (8, 4, 4));
    assert_eq!((l.q.len(), l.k.len()), (32 * 128 * 2, 4 * 128 * 2));
    assert_eq!(l.in_norm, vec![0x3f80, 0x3f80]);
    assert_eq!(l.q_norm.len(), 128);
    l.place(Part::ExpertUp(1), vec![7, 8], s);
    l.place(Part::ExpertGate(1), vec![5, 6], s);
    l.place(Part::ExpertGate(0), vec![1, 2], s);
    l.place(Part::ExpertDown(1), vec![9, 10], s);
    l.place(Part::PostNorm, vec![3], s);
    assert_eq!(l.w13, vec![1, 2, 0, 0, 5, 6, 7, 8]);
    assert_eq!(l.w2, vec![0, 0, 9, 10]);
    assert_eq!(l.post_norm, vec![3]);
    assert!(weights::can_place(Part::ExpertGate(1), 2, s));
    assert!(!weights::can_place(Part::ExpertGate(2), 2, s));
    assert!(!weights::can_place(Part::ExpertGate(1), 3, s));
}

#[test]
fn each_file_is_opened_once() {
    let items = weights::items(2, &[Part::Gate, Part::Query]);
    assert_eq!(items.len(), 4);
    assert_eq!(items[2].name, "model.layers.1.mlp.gate.weight");
    let shards = ["b", "a", "a", "b"];
    let located = items.into_iter().zip(shards).map(|(i, s)| (i, s.to_string())).collect();
    let groups = weights::group_by_shard(located);
    let seen: Vec<(String, Vec<(usize, Part)>)> = groups
        .iter()
        .map(|g| (g.shard.clone(), g.items.iter().map(|i| (i.layer, i.part)).collect()))
        .collect();
    assert_eq!(
        seen,
        vec![
            ("b".to_string(), vec![(0, Part::Gate), (1, Part::Query)]),
            ("a".to_string(), vec![(0, Part::Query), (1, Part::Gate)]),
        ]
    );
}

#[test]
fn manifests_are_read() {
    let m = br#"{"tokens":2,"hidden":4,"inter":3,"num_experts":5,"k":1}"#;
    let d = parity::read_manifest(m).unwrap();
    assert_eq!((d.tokens, d.hidden, d.inter, d.num_experts, d.k), (2, 4, 3, 5, 1));
    assert_eq!(parity::check_sizes(d, 8, 2, 120, 60), None);
    assert_eq!(parity::check_sizes(d, 9, 2, 120, 60), Some("h_in size"));
    assert_eq!(parity::check_sizes(d, 8, 3, 120, 60), Some("topk size"));
    assert_eq!(parity::check_sizes(d, 8, 2, 121, 60), Some("w13 size"));
    assert_eq!(parity::check_sizes(d, 8, 2, 120, 61), Some("w2 size"));
    let m = br#"{"tokens":2,"hidden":4,"num_experts":5,"k":1.5}"#;
    assert_eq!(parity::read_manifest(m).unwrap_err(), "inter");
    assert!(parity::read_manifest(b"nope").unwrap_err().starts_with("expected ident"));
}

#[test]
fn shapes_of_an_expert() {
    assert_eq!(parity::expert_sizes(&[3, 4], &[3, 4], &[4, 3]), Ok((3, 4)));
    assert_eq!(
        parity::expert_sizes(&[3, 4], &[3, 4], &[4, 5]),
        Err("shape mismatch gate=[3, 4] up=[3, 4] down=[4, 5]".to_string())
    );
    assert_eq!(
        parity::expert_sizes(&[3, 4], &[], &[]),
        Err("shape mismatch gate=[3, 4] up=[] down=[]".to_string())
    );
    assert_eq!(parity::check_kernel("naive"), Ok(()));
    assert_eq!(
        parity::check_kernel("simd"),
        Err("unknown kernel 'simd' (available: naive)".to_string())
    );
}

#[test]
fn errors_say_what_is_wrong_with_a_description() {
    let cases = [
        ("5", "invalid type: integer `5`, expected struct TensorMeta"),
        ("-1.5", "invalid type: floating point `-1.5`, expected struct TensorMeta"),
        ("null", "invalid type: null, expected struct TensorMeta"),
        ("\"s\"", "invalid type: string \"s\", expected struct TensorMeta"),
        ("{}", "missing field `dtype`"),
        (r#"{"dtype":"F32"}"#, "missing field `shape`"),
        (r#"{"dtype":"F32","shape":[1]}"#, "missing field `data_offsets`"),
        (r#"{"shape":1,"other":2}"#, "invalid type: integer `1`, expected a sequence"),
        (
            r#"{"dtype":1,"shape":[1],"data_offsets":[0,4]}"#,
            "invalid type: integer `1`, expected a string",
        ),
        (
            r#"{"dtype":"F32","shape":["a"],"data_offsets":[0,4]}"#,
            "invalid type: string \"a\", expected usize",
        ),
        (
            r#"{"dtype":"F32","shape":[-2],"data_offsets":[0,4]}"#,
            "invalid value: integer `-2`, expected usize",
        ),
        (
            r#"{"dtype":1,"shape":2,"data_offsets":[0]}"#,
            "invalid length 1, expected a tuple of size 2",
        ),
        (
            r#"{"dtype":"F32","shape":[1],"data_offsets":[0,4,8]}"#,
            "invalid length 3, expected fewer elements in array",
        ),
        ("[]", "invalid length 0, expected struct TensorMeta with 3 elements"),
        (r#"["F32",[1]]"#, "invalid length 2, expected struct TensorMeta with 3 elements"),
        (r#"[1]"#, "invalid type: integer `1`, expected a string"),
        (r#"["F32",[1],[0,4],9]"#, "invalid length 4, expected fewer elements in array"),
    ];
    for (entry, why) in cases {
        let bytes = file(&format!("{{\"w\":{entry}}}"), &[0; 8]);
        assert_eq!(refused(SafeTensorFile::open("p", &bytes)), format!("w: {why}"));
    }
}

fn unread<T>(e: &str) -> Result<T, String> {
    Err(e.to_string())
}

#[test]
fn descriptions_from_what_was_read() {
    let text = || Some(Ok("F32".to_string()));
    let m = loader::meta_from_members(text(), Some(Ok(vec![2, 3])), Some(Ok((4, 28)))).unwrap();
    assert_eq!((m.dtype.as_str(), m.shape, m.data_offsets), ("F32", vec![2, 3], (4, 28)));
    assert_eq!(
        loader::meta_from_members(Some(unread("d")), Some(unread("s")), Some(unread("o"))).unwrap_err(),
        "o"
    );
    assert_eq!(loader::meta_from_members(Some(unread("d")), Some(unread("s")), None).unwrap_err(), "d");
    assert_eq!(loader::meta_from_members(None, Some(unread("s")), None).unwrap_err(), "s");
    assert_eq!(
        loader::meta_from_elements(2, text(), Some(unread("s")), None).unwrap_err(),
        "s"
    );
    assert_eq!(
        loader::meta_from_elements(4, text(), Some(Ok(vec![])), Some(Ok((0, 0)))).unwrap_err(),
        "invalid length 4, expected fewer elements in array"
    );
    assert!(loader::meta_from_elements(3, text(), Some(Ok(vec![])), Some(Ok((0, 0)))).is_ok());
}
