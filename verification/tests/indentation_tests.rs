use tricti::indentation::{convert_block_leader, desugar_indentation};

#[test]
fn converts_for_inline_unsafe_block() {
    let input = "for i in 0..self.len: unsafe: *(new_data + i) = *(self.data + i)\n";
    let output = desugar_indentation(input);
    let (_converted, _) =
        convert_block_leader("for i in 0..self.len: unsafe: *(new_data + i) = *(self.data + i)");
    assert!(output.contains("for i in 0..self.len { unsafe {"));
    assert!(!output.contains(": unsafe"));
}

#[test]
fn converts_else_without_colon() {
    let input = "if index >= self.len: ret none\nelse some unsafe { *(self.data + index) }\n";
    let output = desugar_indentation(input);
    println!("OUTPUT:{}", output);
    assert!(output.contains(
        "if index >= self.len { ret none } else { some unsafe { *(self.data + index) } }"
    ));
}

#[test]
fn converts_colon_else_block() {
    let input = "if value < 0:\n    ret -value\nelse:\n    ret value\n";
    let output = desugar_indentation(input);
    println!("COLON OUTPUT:{}", output);
    assert!(output.contains("if value < 0 {"));
    assert!(output.contains("} else {"));
}

#[test]
fn converts_elif_chain() {
    let input = "if ch >= 0:\n    ret 1\nelif ch == 1:\n    ret 2\nelse:\n    ret 3\n";
    let output = desugar_indentation(input);
    println!("ELIF OUTPUT:{}", output);
    assert!(output.contains("if ch >= 0 {"));
    assert!(output.contains("} else if ch == 1 {"));
    assert!(output.contains("} else {"));
}

#[test]
fn converts_arrow_match_block() {
    let input = "fmt :: () => match value:\n    some item => do\n        ret item\n    none => do\n        ret none\n";
    let output = desugar_indentation(input);
    assert!(output.contains("=> match value {"));
    assert!(output.contains("some item =>"));
    assert!(output.contains("none =>"));
}

#[test]
fn converts_struct_literal_block() {
    let input = "result := TripmBus:\n    build_requests: build_requests,\n    build_sender: build_sender,\n    build_receiver: build_receiver,\n";
    let output = desugar_indentation(input);
    assert!(output.contains("result := TripmBus {"));
    assert!(output.contains("build_requests: build_requests,"));
    assert!(output.contains("build_receiver: build_receiver,"));
    assert!(output.contains("}"));
}

#[test]
fn converts_struct_literal_block_with_path() {
    let input = "component := services::TripmBus:\n    build_requests: build_requests,\n";
    let output = desugar_indentation(input);
    assert!(output.contains("component := services::TripmBus {"));
    assert!(output.contains("build_requests: build_requests,"));
    assert!(output.contains("}"));
}

#[test]
fn converts_struct_literal_block_with_type_arguments() {
    let input = "entry := Wrapper<TripmBus>:\n    inner: TripmBus::new(),\n";
    let output = desugar_indentation(input);
    assert!(output.contains("entry := Wrapper<TripmBus> {"));
    assert!(output.contains("inner: TripmBus::new(),"));
    assert!(output.contains("}"));
}

#[test]
fn converts_question_else_block() {
    let input = "    file := File::open(path)? else:\n        ret none\n";
    let output = desugar_indentation(&input);
    assert!(output.contains("file := File::open(path)? else {"));
    assert!(output.contains("        ret none"));
    assert!(output.contains("    }"));
}

#[test]
fn desugars_whole_block_exactly() {
    let input = "if a:\n    b\nc\n";
    assert_eq!(desugar_indentation(input), "if a {\n    b\n}\nc\n");
}

#[test]
fn closes_blocks_at_end_of_input() {
    assert_eq!(desugar_indentation("loop:\n    x\n"), "loop {\n    x\n}\n");
    assert_eq!(desugar_indentation("loop:\n"), "loop {\n{}\n");
}

#[test]
fn normalizes_carriage_returns() {
    assert_eq!(desugar_indentation("a\r\nb\rc"), "a\nb\nc");
}

#[test]
fn keeps_blank_and_comment_lines() {
    assert_eq!(desugar_indentation("# note\n\n  x\n"), "# note\n\n  x\n");
}

#[test]
fn converts_struct_declaration_and_attributes() {
    assert_eq!(
        desugar_indentation("Point :: struct\n    x: i32\n"),
        "Point :: struct {\n    x: i32\n}\n"
    );
    assert_eq!(
        desugar_indentation("Apps :: @resource table\n    id: u64\n"),
        "Apps :: @resource table {\n    id: u64\n}\n"
    );
    let (converted, opens) = convert_block_leader("@derive Debug");
    assert_eq!(converted, "@derive(Debug)");
    assert!(!opens);
}

#[test]
fn converts_do_forms() {
    assert_eq!(convert_block_leader("main :: () => do").0, "main :: () => {");
    assert!(convert_block_leader("main :: () => do").1);
    assert_eq!(convert_block_leader("f :: () => do x + 1").0, "f :: () => { x + 1 }");
    assert_eq!(convert_block_leader("f :: () => do {}").0, "f :: () => {}");
}

#[test]
fn explicit_closing_brace_consumes_block() {
    assert_eq!(desugar_indentation("if a:\n    b\n}\n"), "if a {\n    b\n}\n");
}
