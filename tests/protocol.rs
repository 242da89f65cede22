use wasm_type_gen::annotate::{LibraryObj, SharedOutputEntry, UserData, UserField, UserInput};
use wasm_type_gen::codec::{decode, encode};
use wasm_type_gen::protocol::{library_ty, user_data_value};

fn sample() -> LibraryObj {
    LibraryObj {
        compiler_error_message: String::new(),
        add_code_after: vec!["fn extra() {}".to_string()],
        crate_name: "example2".to_string(),
        user_data: UserData::Struct {
            name: "Something".to_string(),
            is_pub: true,
            fields: vec![UserField { is_public: true, name: "a".to_string(), ty: "u64".to_string() }],
        },
        shared_output_data: vec![SharedOutputEntry {
            filename: "deploy.sh".to_string(),
            label: "# build".to_string(),
            line: "cargo build".to_string(),
            unique: true,
            after: Some(" --release".to_string()),
        }],
    }
}

#[test]
fn library_object_round_trip() {
    let obj = sample();
    let data = obj.to_binary_slice().expect("encodes");
    let back = LibraryObj::from_binary_slice(&data).expect("decodes");
    assert_eq!(back.crate_name, "example2");
    assert_eq!(back.add_code_after, vec!["fn extra() {}".to_string()]);
    match back.user_data {
        UserData::Struct { name, is_pub, fields } => {
            assert_eq!(name, "Something");
            assert!(is_pub);
            assert_eq!(fields.len(), 1);
            assert_eq!(fields[0].ty, "u64");
        }
        _ => panic!("expected a struct"),
    }
    assert_eq!(back.shared_output_data[0].after, Some(" --release".to_string()));
    assert!(back.shared_output_data[0].unique);
}

#[test]
fn every_description_kind_round_trips() {
    let kinds = vec![
        UserData::Function {
            name: "f".to_string(),
            is_pub: false,
            is_async: true,
            inputs: vec![
                UserInput { is_self: true, name: "&self".to_string(), ty: String::new() },
                UserInput { is_self: false, name: "x".to_string(), ty: "u32".to_string() },
            ],
            return_ty: "bool".to_string(),
        },
        UserData::Module { name: "m".to_string(), is_pub: true },
        UserData::GlobalVariable { name: "G".to_string(), is_pub: false },
        UserData::Match { name: "x".to_string(), is_pub: false },
        UserData::Missing,
    ];
    for d in kinds {
        let mut obj = LibraryObj::new();
        let v = user_data_value(&d);
        obj.user_data = d;
        let data = obj.to_binary_slice().expect("encodes");
        let back = LibraryObj::from_binary_slice(&data).expect("decodes");
        assert_eq!(user_data_value(&back.user_data), v);
    }
}

#[test]
fn wrong_shape_is_not_an_object() {
    let data = encode(&wasm_type_gen::codec::Value::U8(1));
    assert!(LibraryObj::from_binary_slice(&data).is_none());
    assert!(decode(&library_ty(), &data).is_none());
}
