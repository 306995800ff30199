use astatine::cli::{file_stem, output_file_name};
use astatine::generator::Generator;
use astatine::parser::{Declaration, Expression, Node};
use astatine::symbols::{NameMap, Symbol, SymbolDefinition, SymbolTable, TypeTable};
use astatine::syntax::{FunctionDefinition, IdentifierId, LiteralKind, StructDefinition, Type, TypeId};

fn constant(name: &str, value: &str) -> Declaration {
    Declaration {
        name: name.to_string(),
        value: Expression::Literal { value: value.to_string(), kind: LiteralKind::String },
    }
}

fn function(name: &str, params: &[&str]) -> FunctionDefinition {
    FunctionDefinition { name: name.to_string(), params: params.iter().map(|p| p.to_string()).collect() }
}

#[test]
fn name_map_reads_back_what_was_written() {
    let mut m: NameMap<u32> = NameMap::new();
    assert_eq!(m.get("a"), None);
    m.insert("a".to_string(), 1);
    m.insert("b".to_string(), 2);
    m.insert("a".to_string(), 3);
    assert_eq!(m.get("a"), Some(3));
    assert_eq!(m.get("b"), Some(2));
    assert_eq!(m.get("c"), None);
}

#[test]
fn symbol_table_maps_names_to_their_last_symbol() {
    let f = function("main", &[]);
    let d = constant("main", "x");
    let mut table = SymbolTable::new();
    table.push(Symbol { name: "main".to_string(), definition: SymbolDefinition::Function(&f) });
    table.push(Symbol { name: "other".to_string(), definition: SymbolDefinition::Function(&f) });
    table.push(Symbol { name: "main".to_string(), definition: SymbolDefinition::Variable(&d) });
    assert_eq!(table.symbols.len(), 3);
    assert_eq!(table.id_map.get("main"), Some(IdentifierId(2)));
    assert_eq!(table.id_map.get("other"), Some(IdentifierId(1)));
    assert!(table.parent.is_none());
    let inner = SymbolTable::with_parent(&table);
    assert!(inner.parent.is_some());
    assert!(inner.symbols.is_empty());
    assert_eq!(inner.id_map.get("main"), None);
}

#[test]
fn type_table_maps_names_to_their_last_type() {
    let mut types = TypeTable::new();
    types.push(Type::Struct(StructDefinition { name: "A".to_string(), fields: vec![] }));
    types.push(Type::Struct(StructDefinition { name: "B".to_string(), fields: vec![] }));
    types.push(Type::Struct(StructDefinition { name: "A".to_string(), fields: vec!["x".to_string()] }));
    assert_eq!(types.types.len(), 3);
    assert_eq!(types.id_map.get("A"), Some(TypeId(2)));
    assert_eq!(types.id_map.get("B"), Some(TypeId(1)));
}

#[test]
fn constants_resolve_to_data_lines() {
    let d = constant("msg", "hello");
    let ast: Vec<Node> = vec![];
    let generator = Generator::new(&ast);
    assert_eq!(
        generator.resolve_constant(&d),
        vec!["msg db \"hello\"".to_string(), "msg_len equ $ - msg".to_string()]
    );
}

#[test]
fn functions_become_labels() {
    let ast: Vec<Node> = vec![];
    let generator = Generator::new(&ast);
    assert_eq!(
        generator.generate_function(&function("main", &[])),
        vec!["".to_string(), "main:".to_string(), "ret".to_string()]
    );
    assert_eq!(
        generator.generate_function(&function("add", &["a", "b"])),
        vec!["".to_string(), "; [\"a\", \"b\"]".to_string(), "add:".to_string(), "ret".to_string()]
    );
}

#[test]
fn assembles_a_program() {
    let ast = vec![
        Node::ConstDecl(constant("msg", "hi")),
        Node::StructDef(StructDefinition { name: "P".to_string(), fields: vec![] }),
        Node::Function(function("main", &[])),
    ];
    let generator = Generator::new(&ast);
    assert_eq!(
        generator.generate_asm(),
        "section .rodata\n\nmsg db \"hi\"\nmsg_len equ $ - msg\n\
         section .text\n\nglobal _start\n_start:\n\ncall main\n\nmov rdi, rax\nmov rax, 60\nsyscall\n\
         \nmain:\nret\n"
    );
}

#[test]
fn assembles_an_empty_program() {
    let ast: Vec<Node> = vec![];
    assert_eq!(
        Generator::new(&ast).generate_asm(),
        "section .rodata\n\nsection .text\n\nglobal _start\n_start:\n\ncall main\n\nmov rdi, rax\nmov rax, 60\nsyscall\n"
    );
}

#[test]
fn file_stems() {
    assert_eq!(file_stem("foo.tar.gz"), "foo.tar");
    assert_eq!(file_stem("prog.at"), "prog");
    assert_eq!(file_stem(".bashrc"), ".bashrc");
    assert_eq!(file_stem("plain"), "plain");
    assert_eq!(file_stem("dot."), "dot");
    assert_eq!(file_stem(""), "");
}

#[test]
fn output_names() {
    assert_eq!(output_file_name(Some("out".to_string()), Some("a.at".to_string())), Some("out".to_string()));
    assert_eq!(output_file_name(None, Some("prog.at".to_string())), Some("prog".to_string()));
    assert_eq!(output_file_name(None, None), None);
}
