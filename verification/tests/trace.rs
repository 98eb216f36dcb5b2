use gcmalloc::trace::{trace_by_plan, trace_fields, Trace, TraceType};
use gcmalloc::trace_derive::{
    get_trace, get_trace_with, interpret, is_quiet_field, is_quiet_path, trace_position,
    traceable_derive, traceable_derive_with, Attribute, Data, DeriveError, Field, Meta, TracePlan,
    Traced,
};

fn field(attrs: Vec<Attribute>) -> Field {
    Field { attrs }
}

fn attr(path: &str, meta: Meta) -> Attribute {
    Attribute { path: path.to_string(), meta }
}

fn unmask_with(path: &str) -> Attribute {
    attr("trace", Meta::Str(path.to_string()))
}

/// The address that a reference holds.
fn address<T>(r: &T) -> usize {
    usize::from_str_radix(format!("{:p}", r).trim_start_matches("0x"), 16).unwrap()
}

#[test]
fn custom_trace() {
    fn unmask_fn(x: usize) -> usize {
        x + 1
    }

    struct S {
        x: usize,
    }

    impl Trace for S {
        fn trace(&self, current: &mut Vec<usize>) -> TraceType {
            let plan =
                traceable_derive(&Data::Struct(vec![field(vec![unmask_with("unmask_fn")])])).unwrap();
            assert_eq!(plan.unmasked, Vec::<usize>::new());
            assert_eq!(plan.masked, vec![(0, "unmask_fn".to_string())]);
            trace_by_plan(&plan, &[unmask_fn(self.x)], current)
        }
    }

    let s = S { x: 0 };
    let mut trace_stack = Vec::<usize>::new();
    let tt = s.trace(&mut trace_stack);
    assert_eq!(tt, TraceType::Custom);
    assert_eq!(trace_stack[0], 1);
}

#[test]
fn custom_trace_records_all_fields() {
    fn unmask_fn(x: usize) -> usize {
        x + 1
    }

    struct T;
    struct S<'a> {
        x: usize,
        _y: usize,
        z: &'a T,
    }

    impl<'a> Trace for S<'a> {
        fn trace(&self, current: &mut Vec<usize>) -> TraceType {
            let plan = traceable_derive(&Data::Struct(vec![
                field(vec![unmask_with("unmask_fn")]),
                field(vec![]),
                field(vec![attr("trace", Meta::Word)]),
            ]))
            .unwrap();
            assert_eq!(plan.unmasked, vec![2]);
            assert_eq!(plan.masked, vec![(0, "unmask_fn".to_string())]);
            trace_by_plan(&plan, &[unmask_fn(self.x), self._y, address(self.z)], current)
        }
    }

    let t = T {};
    let s = S {
        x: 0,
        _y: 123,
        z: &t,
    };
    let mut trace_stack = Vec::<usize>::new();
    let tt = s.trace(&mut trace_stack);

    assert_eq!(tt, TraceType::Custom);
    assert_eq!(trace_stack, &[address(s.z), 1]);
}

#[test]
fn objects_are_scanned_unless_they_say_otherwise() {
    struct S;
    impl Trace for S {}
    let mut stack = vec![5];
    assert_eq!(S.trace(&mut stack), TraceType::Conservative);
    assert_eq!(stack, vec![5]);
}

#[test]
fn unmasked_fields_come_first() {
    let mut stack = vec![9];
    assert_eq!(trace_fields(&[1, 2], &[3, 4], &mut stack), TraceType::Custom);
    assert_eq!(stack, vec![9, 1, 2, 3, 4]);
}

#[test]
fn plans_tell_which_values_are_traced() {
    let plan = TracePlan {
        unmasked: vec![1, 4],
        masked: vec![(0, "f".to_string()), (3, "g".to_string())],
    };
    let mut stack = vec![9];
    let tt = trace_by_plan(&plan, &[10, 11, 12, 13, 14], &mut stack);
    assert_eq!(tt, TraceType::Custom);
    assert_eq!(stack, vec![9, 11, 14, 10, 13]);
    let none = TracePlan { unmasked: vec![], masked: vec![] };
    assert_eq!(trace_by_plan(&none, &[], &mut stack), TraceType::Custom);
    assert_eq!(stack.len(), 5);
}

#[test]
fn the_first_attribute_decides() {
    let f = field(vec![attr("doc", Meta::Word), attr("trace", Meta::Word), unmask_with("f")]);
    assert_eq!(trace_position(&f), Some(1));
    assert!(matches!(get_trace(&f), Ok(Some(Traced::Unmasked))));
    assert_eq!(trace_position(&field(vec![])), None);
    assert_eq!(trace_position(&field(vec![attr("tracer", Meta::Word)])), None);
}

#[test]
fn fields_are_sorted_by_kind() {
    let plan = traceable_derive(&Data::Struct(vec![
        field(vec![attr("trace", Meta::Word)]),
        field(vec![unmask_with("a::b")]),
        field(vec![attr("doc", Meta::Str("not a path!".to_string()))]),
        field(vec![attr("serde", Meta::Invalid), attr("trace", Meta::Word)]),
        field(vec![unmask_with("::c::<u8>"), attr("trace", Meta::Invalid)]),
    ]))
    .unwrap();
    assert_eq!(plan.unmasked, vec![0, 3]);
    assert_eq!(plan.masked, vec![(1, "a::b".to_string()), (4, "::c::<u8>".to_string())]);
}

#[test]
fn derive_errors() {
    let derive = |attrs: Vec<Attribute>| traceable_derive(&Data::Struct(vec![field(attrs)]));
    assert_eq!(traceable_derive(&Data::Enum).unwrap_err(), DeriveError::NotAStruct);
    assert_eq!(traceable_derive(&Data::Union).unwrap_err(), DeriveError::NotAStruct);
    assert_eq!(derive(vec![attr("trace", Meta::Invalid)]).unwrap_err(), DeriveError::InvalidMeta);
    assert_eq!(derive(vec![attr("trace", Meta::Other)]).unwrap_err(), DeriveError::UnexpectedMeta);
    for text in [
        "", "1", "a b", "a::", "a +", "struct", ":", "::", "a:b", "a:::b", "_", "a::_", "1a", "a::1",
        "fn::a", "a::for", "for", "true", "yield",
    ] {
        assert_eq!(derive(vec![unmask_with(text)]).unwrap_err(), DeriveError::InvalidPath);
    }
    for text in [
        "a", "a::b::c", "crate::a", "::a", "a::<b>", "Self::a", "a::self", "super::super::a",
        "extern", "__", "_a", "a1::b_2", "dyn", "async", "r", "b", "br::c", "formal",
    ] {
        assert!(derive(vec![unmask_with(text)]).is_ok());
    }
    // The first field in error decides.
    let r = traceable_derive(&Data::Struct(vec![
        field(vec![]),
        field(vec![attr("trace", Meta::Other)]),
        field(vec![attr("trace", Meta::Invalid)]),
    ]));
    assert_eq!(r.unwrap_err(), DeriveError::UnexpectedMeta);
    // A struct without fields is traced without fields.
    let plan = traceable_derive(&Data::Struct(vec![])).unwrap();
    assert!(plan.unmasked.is_empty() && plan.masked.is_empty());
}

#[test]
fn interpretation_of_attributes() {
    assert!(matches!(interpret(&Meta::Word, false), Ok(Traced::Unmasked)));
    match interpret(&Meta::Str("f".to_string()), true) {
        Ok(Traced::Masked(path)) => assert_eq!(path, "f"),
        _ => panic!(),
    }
    let r = interpret(&Meta::Str("f".to_string()), false);
    assert_eq!(r.unwrap_err(), DeriveError::InvalidPath);
    assert_eq!(interpret(&Meta::Other, true).unwrap_err(), DeriveError::UnexpectedMeta);
    assert_eq!(interpret(&Meta::Invalid, true).unwrap_err(), DeriveError::InvalidMeta);
    let none = get_trace(&field(vec![attr("tracer", Meta::Word)]));
    assert!(matches!(none, Ok(None)));
}

#[test]
fn what_is_a_path_can_be_told() {
    let fields = || {
        Data::Struct(vec![
            field(vec![unmask_with("a")]),
            field(vec![attr("trace", Meta::Word)]),
            field(vec![]),
            field(vec![unmask_with("not a path")]),
        ])
    };
    let r = traceable_derive_with(&fields(), &[true, false, false, false]);
    assert_eq!(r.unwrap_err(), DeriveError::InvalidPath);
    // Nothing but strings is asked for.
    for rest in [true, false] {
        let plan = traceable_derive_with(&fields(), &[true, rest, rest, true]).unwrap();
        assert_eq!(plan.unmasked, vec![1]);
        assert_eq!(plan.masked, vec![(0, "a".to_string()), (3, "not a path".to_string())]);
    }
    assert_eq!(traceable_derive(&fields()).unwrap_err(), DeriveError::InvalidPath);
    assert_eq!(traceable_derive_with(&Data::Enum, &[]).unwrap_err(), DeriveError::NotAStruct);
    let r = get_trace_with(&field(vec![unmask_with("a")]), false);
    assert_eq!(r.unwrap_err(), DeriveError::InvalidPath);
    match get_trace_with(&field(vec![unmask_with("a b")]), true) {
        Ok(Some(Traced::Masked(path))) => assert_eq!(path, "a b"),
        _ => panic!(),
    }
}

#[test]
fn messages() {
    assert_eq!(DeriveError::NotAStruct.message(), Some("Expected a struct"));
    assert_eq!(DeriveError::UnexpectedMeta.message(), Some("expected #[trace = \"...\"]"));
    assert_eq!(DeriveError::InvalidMeta.message(), None);
    assert_eq!(DeriveError::InvalidPath.message(), None);
}

#[test]
fn quiet_paths() {
    for text in [
        "",
        "f",
        "unmask_fn",
        "a::<b>",
        "f::<(u8, [u8; 4_096])>",
        "f::<[u8; 4usize]>",
        "f::<dyn 'a + T>",
        "transform::<dyn 'a + T>",
        "f::<dyn T + 'a>",
        "f::<for<'a> dyn Fn(&'a u8)>",
        "f::<for<'a> fn(&'a u8) -> dyn 'a + T>",
        "f::<for<'a> fn(&'a u8), dyn 'a + T>",
        "f::<<A as B<'static>>::C>",
        "f\t::\n<[u8; N / 2]>",
        "a b + 1",
    ] {
        assert!(is_quiet_path(text), "{}", text);
        assert!(is_quiet_field(&field(vec![unmask_with(text)])));
        // No panic.
        let _ = get_trace(&field(vec![unmask_with(text)]));
    }
    for text in [
        // Lifetimes behind a `dyn` with a `for<..>` in front.
        "f::<for<'a> dyn 'a + T>",
        "f::<for<'a>dyn\n'a + T>",
        "f::<for<'a, 'b: 'a> dyn 'a + T>",
        "f::<for<> dyn 'a + T>",
        "F<\u{2028}for<'a> dyn 'a + G>",
        "F<\u{a0}for<'a> dyn 'a + G>",
        "F<for<#[a(>)] 'a> dyn 'a + G>",
        "F<for</* > */ 'a> dyn /* */ 'a + G>",
        // Literals.
        "f::<[u8; c\"x\"]>",
        "f::<[u8; 0b2]>",
        "f::<[u8; 0x]>",
        "f::<[u8; 1e]>",
        "f::<[u8; 'x']>",
        "\"a\"",
        // No tokens.
        "f::<(u8>",
        "f)",
        "f::<(u8]>",
        "a'b",
        "'1",
        "'",
        "f // comment",
        "f /* comment */",
        "f#",
        "`f`",
        "f\\",
        "\u{fe}",
    ] {
        assert!(!is_quiet_path(text), "{}", text);
        assert!(!is_quiet_field(&field(vec![unmask_with(text)])));
    }
    // Only what decides is looked at.
    assert!(is_quiet_field(&field(vec![attr("doc", Meta::Str("\"".to_string()))])));
    assert!(is_quiet_field(&field(vec![attr("trace", Meta::Word), unmask_with("\"")])));
    let derive = |text: &str| traceable_derive(&Data::Struct(vec![field(vec![unmask_with(text)])]));
    assert!(derive("f::<for<'a> dyn Fn(&'a u8)>").is_ok());
    assert!(derive("f::<dyn 'a + T>").is_ok());
    assert!(derive("transform::<dyn 'a + T>").is_ok());
    assert!(derive("f::<for<'a> fn(&'a u8) -> dyn 'a + T>").is_ok());
    assert!(derive("f::<for<'a> fn(&'a u8), dyn 'a + T>").is_ok());
    assert!(derive("f::<(u8, [u8; 4_096])>").is_ok());
}
