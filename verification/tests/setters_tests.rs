use native_windows::setters::{
    strip_option, PathArgs, SetterAttr, SetterField, SetterFieldInfo, SetterMeta, SetterParam, SetterStruct, StoredValue, TypeModel,
};

fn path_ty(text: &str, last: &str, args: PathArgs) -> TypeModel {
    TypeModel::Path { text: text.to_string(), last: last.to_string(), args }
}

fn option_of(inner: TypeModel) -> TypeModel {
    let text = match &inner {
        TypeModel::Path { text, .. } => text.clone(),
        TypeModel::Other { text } => text.clone(),
    };
    path_ty(&format!("Option<{}>", text), "Option", PathArgs::Angle(Ok(Box::new(inner))))
}

fn u32_ty() -> TypeModel {
    path_ty("u32", "u32", PathArgs::Bare)
}

fn meta(ident: &str) -> SetterMeta {
    SetterMeta { ident: Some(ident.to_string()), name_value: Err("expected `=`".to_string()) }
}

fn name_meta(v: &str) -> SetterMeta {
    SetterMeta { ident: Some("name".to_string()), name_value: Ok(v.to_string()) }
}

fn text_of(t: &TypeModel) -> String {
    match t {
        TypeModel::Path { text, .. } => text.clone(),
        TypeModel::Other { text } => text.clone(),
    }
}

#[test]
fn attribute_options() {
    let a = SetterAttr::parse_attr(&vec![meta("skip"), meta("into")]).ok().unwrap();
    assert!(a.skip && a.into && !a.strip_option && a.name.is_none());
    let a = SetterAttr::parse_attr(&vec![name_meta("label"), meta("strip_option"), name_meta("caption")]).ok().unwrap();
    assert!(a.strip_option && !a.skip);
    assert_eq!(a.name.as_deref(), Some("caption"));
    match SetterAttr::parse_attr(&vec![meta("into"), SetterMeta { ident: Some("name".to_string()), name_value: Err("expected identifier".to_string()) }]) {
        Err(m) => assert_eq!(m, "expected identifier"),
        Ok(_) => panic!("a name without identifier was read"),
    }
    let d = SetterAttr::default_attr();
    assert!(!d.skip && !d.into && !d.strip_option && d.name.is_none());
}

#[test]
fn strip_option_messages() {
    let inner = strip_option("flags", &option_of(u32_ty())).ok().unwrap();
    assert_eq!(text_of(&inner), "u32");
    match strip_option("size", &u32_ty()) {
        Err(m) => assert_eq!(m, "`size` must be type `Option` to use `strip_option`, found `u32`"),
        Ok(_) => panic!("stripped a u32"),
    }
    match strip_option("text", &TypeModel::Other { text: "&'a str".to_string() }) {
        Err(m) => assert_eq!(m, "`text` must be type `Option` to use `strip_option`"),
        Ok(_) => panic!("stripped a reference"),
    }
}

#[test]
fn setter_fields() {
    // plain field
    let f = SetterFieldInfo { ident: "size".to_string(), ty: u32_ty(), attr: None };
    let s = SetterField::parse_fields(&f).ok().unwrap().unwrap();
    assert_eq!(s.setter_ident, "size");
    assert!(matches!(&s.param, SetterParam::Plain(t) if text_of(t) == "u32"));
    assert!(s.stored_value() == (StoredValue::Arg, false));
    // skipped field
    let f = SetterFieldInfo { ident: "v".to_string(), ty: u32_ty(), attr: Some(SetterAttr { skip: true, strip_option: false, into: false, name: None }) };
    assert!(SetterField::parse_fields(&f).ok().unwrap().is_none());
    // renamed, stripped
    let f = SetterFieldInfo {
        ident: "label_text".to_string(),
        ty: option_of(u32_ty()),
        attr: Some(SetterAttr { skip: false, strip_option: true, into: false, name: Some("label".to_string()) }),
    };
    let s = SetterField::parse_fields(&f).ok().unwrap().unwrap();
    assert_eq!(s.setter_ident, "label");
    assert_eq!(s.field_ident, "label_text");
    assert!(matches!(&s.param, SetterParam::Plain(t) if text_of(t) == "u32"));
    assert!(s.stored_value() == (StoredValue::Arg, true));
    // into and strip_option on an option of a reference
    let f = SetterFieldInfo {
        ident: "font".to_string(),
        ty: option_of(TypeModel::Other { text: "&'a String".to_string() }),
        attr: Some(SetterAttr { skip: false, strip_option: true, into: true, name: None }),
    };
    let s = SetterField::parse_fields(&f).ok().unwrap().unwrap();
    assert!(!s.is_option);
    assert!(matches!(&s.param, SetterParam::Into(t) if text_of(t) == "&'a String"));
    assert!(s.stored_value() == (StoredValue::Into, true));
    // into on an option, not stripped
    let f = SetterFieldInfo {
        ident: "parent".to_string(),
        ty: option_of(path_ty("ControlHandle", "ControlHandle", PathArgs::Bare)),
        attr: Some(SetterAttr { skip: false, strip_option: false, into: true, name: None }),
    };
    let s = SetterField::parse_fields(&f).ok().unwrap().unwrap();
    assert!(s.is_option);
    assert!(matches!(&s.param, SetterParam::OptionInto(t) if text_of(t) == "ControlHandle"));
    assert!(s.stored_value() == (StoredValue::MapInto, false));
    // strip_option on a field that is no option
    let f = SetterFieldInfo { ident: "size".to_string(), ty: u32_ty(), attr: Some(SetterAttr { skip: false, strip_option: true, into: false, name: None }) };
    match SetterField::parse_fields(&f) {
        Err(m) => assert_eq!(m, "`size` must be type `Option` to use `strip_option`, found `u32`"),
        Ok(_) => panic!("stripped a u32"),
    }
}

#[test]
fn setter_structs() {
    match SetterStruct::parse("Thing", &None) {
        Err(m) => assert_eq!(m, "`Thing` must be an Struct to derive `Setter`"),
        Ok(_) => panic!("an enum got setters"),
    }
    let fields = vec![
        SetterFieldInfo { ident: "a".to_string(), ty: u32_ty(), attr: None },
        SetterFieldInfo { ident: "b".to_string(), ty: u32_ty(), attr: Some(SetterAttr { skip: true, strip_option: false, into: false, name: None }) },
        SetterFieldInfo { ident: "c".to_string(), ty: u32_ty(), attr: None },
    ];
    let st = SetterStruct::parse("Builder", &Some(fields)).ok().unwrap();
    assert_eq!(st.ident, "Builder");
    let names: Vec<&str> = st.fields.iter().map(|f| f.setter_ident.as_str()).collect();
    assert_eq!(names, vec!["a", "c"]);
    let fields = vec![
        SetterFieldInfo { ident: "a".to_string(), ty: u32_ty(), attr: None },
        SetterFieldInfo { ident: "b".to_string(), ty: u32_ty(), attr: Some(SetterAttr { skip: false, strip_option: true, into: false, name: None }) },
    ];
    match SetterStruct::parse("Builder", &Some(fields)) {
        Err(m) => assert_eq!(m, "`b` must be type `Option` to use `strip_option`, found `u32`"),
        Ok(_) => panic!("a bad field was accepted"),
    }
}
