use saerom::diag::Span;
use saerom::emit::{Emitter, Repr, Val};
use saerom::hir::{Function, Kind, Module, Place, Program};
use saerom::intern::Interner;
use saerom::types::{Fields, Ty, Types};

fn program() -> Program {
    let module = Module {
        name: "main".to_string(),
        path: "main.sr".to_string(),
        source: String::new(),
        init: Vec::new(),
        nouns: Vec::new(),
    };
    let function = Function {
        name: "하다".to_string(),
        kind: Kind::Verb,
        module: 0,
        params: vec![1],
        locals: 2,
        body: Vec::new(),
        span: Span::new(1, 0, 1),
    };
    Program { modules: vec![module], functions: vec![function], names: Interner::new(), globals: 2, order: vec![0], root: 0 }
}

fn types() -> Types {
    Types {
        fields: Fields::default(),
        nouns: Vec::new(),
        globals: vec![Ty::Int, Ty::Str],
        locals: vec![vec![Ty::Float, Ty::Bool]],
        returns: vec![Ty::Int],
        constants: vec![None, None],
    }
}

fn val(repr: Repr, name: &str) -> Val {
    Val { repr, name: name.to_string() }
}

#[test]
fn a_word_is_boxed_into_a_fresh_slot() {
    let program = program();
    let mut emitter = Emitter::new(&program, types());
    let holder = emitter.boxed(val(Repr::Word, "%x"));
    assert_eq!(holder, "%v1");
    assert_eq!(emitter.allocas, vec!["  %v1 = alloca %Value, align 8"]);
    assert_eq!(
        emitter.body,
        "  %v2 = getelementptr inbounds %Value, ptr %v1, i64 0, i32 0\n  store i64 2, ptr %v2, align 8\n  %v3 = getelementptr inbounds %Value, ptr %v1, i64 0, i32 1\n  store i64 %x, ptr %v3, align 8\n"
    );
}

#[test]
fn values_are_converted_between_representations() {
    let program = program();
    let mut emitter = Emitter::new(&program, types());
    assert_eq!(emitter.unboxed(val(Repr::Word, "%a"), Repr::Real), "%v1");
    assert_eq!(emitter.body, "  %v1 = sitofp i64 %a to double\n");
    assert_eq!(emitter.unboxed(val(Repr::Real, "%b"), Repr::Real), "%b");
    let test = emitter.truth(val(Repr::Boxed, "%c"));
    assert_eq!(test, "%v3");
    assert!(emitter.body.ends_with("  %v2 = call i8 @sr_truthy(ptr %c)\n  %v3 = icmp ne i8 %v2, 0\n"));
}

#[test]
fn string_constants_are_made_once() {
    let program = program();
    let mut emitter = Emitter::new(&program, types());
    let (name, len) = emitter.constant("a\"b");
    assert_eq!((name.as_str(), len), ("@.s0", 3));
    let (again, _) = emitter.constant("a\"b");
    assert_eq!(again, "@.s0");
    let (other, _) = emitter.constant("한");
    assert_eq!(other, "@.s1");
    assert_eq!(
        emitter.constants,
        "@.s0 = private unnamed_addr constant [3 x i8] c\"a\\22b\"\n@.s1 = private unnamed_addr constant [3 x i8] c\"\\ED\\95\\9C\"\n"
    );
}

#[test]
fn places_are_read_and_written_by_their_types() {
    let program = program();
    let mut emitter = Emitter::new(&program, types());
    emitter.current = Some(0);
    let read = emitter.read_place(Place::Local(0));
    assert_eq!(read.repr, Repr::Real);
    assert_eq!(emitter.body, "  %v1 = load double, ptr %l0, align 8\n");
    let global = emitter.read_place(Place::Global(1));
    assert_eq!(global.repr, Repr::Boxed);
    assert_eq!(global.name, "%v2");
    emitter.write_place(Place::Local(1), val(Repr::Flag, "%t"));
    assert!(emitter.body.ends_with("  store i1 %t, ptr %l1, align 8\n"));
    let (ret, params) = emitter.signature(0);
    assert_eq!(ret, Repr::Word);
    assert_eq!(params, vec![Repr::Flag]);
}

#[test]
fn positions_are_stored_once_per_block() {
    let program = program();
    let mut emitter = Emitter::new(&program, types());
    let span = Span::new(2, 3, 7);
    assert_eq!(emitter.packed(span), (2u64 << 24) | (3 << 12) | 4);
    emitter.at(span);
    emitter.at(span);
    assert_eq!(emitter.body.matches("@SR_POS").count(), 1);
    emitter.mark("next");
    emitter.at(span);
    assert_eq!(emitter.body.matches("@SR_POS").count(), 2);
    assert_eq!(emitter.label("loop"), "loop1");
    assert_eq!(emitter.nouns_argument(0), "ptr null");
}

#[test]
fn a_function_is_closed_with_its_slots_and_return() {
    let program = program();
    let mut emitter = Emitter::new(&program, types());
    emitter.open(0);
    let slot = emitter.slot();
    emitter.line(&format!("call void @sr_nothing(ptr {slot})"));
    emitter.close("define internal i64 @fn_0()", "  ; start\n", Repr::Word);
    assert_eq!(
        emitter.functions,
        "define internal i64 @fn_0() {\nentry:\n  %v1 = alloca %Value, align 8\n  ; start\n  call void @sr_nothing(ptr %v1)\n  ret i64 0\n}\n\n"
    );
}

#[test]
fn frames_are_entered_only_when_kept() {
    let program = program();
    let mut emitter = Emitter::new(&program, types());
    assert!(emitter.enter("하다", None).is_none());
    assert!(emitter.body.is_empty());
    emitter.frames = true;
    let depth = emitter.enter("하다", Some(Span::new(1, 0, 2))).unwrap();
    assert_eq!(depth, "%v1");
    assert_eq!(emitter.sites, "@.site0 = private constant %Site { ptr @.s0, i64 6 }\n");
    assert!(emitter.body.contains("store i64 16777218, ptr %v4, align 8"));
}

#[test]
fn the_module_registers_its_sources_and_runs_in_order() {
    let program = program();
    let mut emitter = Emitter::new(&program, types());
    let out = emitter.finish("x86_64-unknown-linux-gnu");
    assert!(out.starts_with("target triple = \"x86_64-unknown-linux-gnu\"\n\n%Value = type { i64, i64 }\n"));
    assert!(out.contains("@globals = internal global [2 x %Value] zeroinitializer\n\n"));
    assert!(out.contains("@sources = internal constant [1 x %Source] [%Source { ptr @.s0, i64 7, ptr @.s1, i64 0 }]\n"));
    assert!(out.ends_with("  call void @sr_sources(ptr @sources, i64 1, i8 0)\n  call void @mod_0()\n  call void @sr_finish()\n  ret i32 0\n}\n"));
    let bare = Emitter::new(&program, types()).finish("");
    assert!(bare.starts_with("%Value"));
}

#[test]
fn a_noun_table_tries_each_field_by_name() {
    let mut names = Interner::new();
    let kind = names.intern("자료");
    let length = names.intern("길이");
    let module = Module {
        name: "main".to_string(),
        path: "main.sr".to_string(),
        source: String::new(),
        init: Vec::new(),
        nouns: vec![(kind, 1), (length, 0)],
    };
    let noun = |name: &str| Function {
        name: name.to_string(),
        kind: Kind::Noun,
        module: 0,
        params: vec![0],
        locals: 1,
        body: Vec::new(),
        span: Span::new(1, 0, 1),
    };
    let program = Program {
        modules: vec![module],
        functions: vec![noun("길이"), noun("자료")],
        names,
        globals: 0,
        order: vec![0],
        root: 0,
    };
    let types = Types {
        fields: Fields::default(),
        nouns: Vec::new(),
        globals: Vec::new(),
        locals: vec![vec![Ty::Any], vec![Ty::Int]],
        returns: vec![Ty::Int, Ty::Any],
        constants: Vec::new(),
    };
    let mut emitter = Emitter::new(&program, types);
    emitter.noun_table(0);
    let out = &emitter.functions;
    assert!(out.starts_with("define internal i8 @nouns_0(ptr %out, ptr %owner, ptr %name, i64 %len) {\nentry:\n"));
    assert!(out.contains("  %v1 = call i8 @sr_name_is(ptr %name, i64 %len, ptr @.s0, i64 6)\n"));
    assert!(out.contains("  %v3 = call i64 @fn_0(ptr %owner)\n"));
    assert!(out.contains("call void @fn_1(ptr %out, i64 "));
    assert!(out.ends_with("  ret i8 1\nmiss4:\n  ret i8 0\n}\n\n"));
    assert!(emitter.body.is_empty());
    assert!(emitter.constants.starts_with("@.s0 = private unnamed_addr constant [6 x i8]"));
}

#[test]
fn a_noun_result_of_no_single_type_is_checked() {
    let mut program = program();
    program.functions[0].kind = Kind::Noun;
    let mut loose = types();
    loose.returns = vec![Ty::Any];
    let mut emitter = Emitter::new(&program, loose);
    let span = Span::new(1, 0, 1);
    emitter.guard_result(0, &val(Repr::Boxed, "%r"), span);
    assert!(emitter.body.ends_with("  call void @sr_check_value(ptr %r, ptr @.s0, i64 6)\n"));
    assert!(emitter.body.contains("@SR_POS"));
    let mut exact = Emitter::new(&program, types());
    exact.guard_result(0, &val(Repr::Word, "%r"), span);
    assert!(exact.body.is_empty());
}
