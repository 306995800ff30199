//! Builds the assembly text of a program from its nodes.
use vstd::prelude::*;
use crate::parser::{Declaration, Expression, Node};
use crate::symbols::{Symbol, SymbolDefinition, SymbolTable, TypeTable};
use crate::syntax::{FunctionDefinition, LiteralKind, Type};
use crate::text::push_char;

verus! {

/// The text that std's `Debug` formatting gives a list of strings: each
/// string quoted and escaped, separated by commas, in square brackets.
pub uninterp spec fn params_debug_text(params: Seq<Seq<char>>) -> Seq<char>;

/// The views of a sequence of strings.
pub open spec fn strings_view(v: Seq<String>) -> Seq<Seq<char>> {
    v.map_values(|s: String| s@)
}

/// std's `Debug` formatting of a list of strings (`format!("{:?}", ..)`).
/// Trusted: the text is a function of the strings alone, named
/// `params_debug_text`; what it looks like is left to the name.
#[verifier::external_body]
fn params_debug(params: &Vec<String>) -> (s: String)
    ensures
        s@ == params_debug_text(strings_view(params@)),
{
    format!("{:?}", params)
}

/// Why a constant could not be resolved.
#[derive(Debug)]
pub enum ConstantResolveError<'a> {
    NoDefinition(&'a str),
    InvalidSymbol(&'a str, SymbolDefinition<'a>),
}

/// The lines of the read-only data section.
#[derive(Debug)]
struct RoDataSection {
    entries: Vec<String>,
}

/// The lines of the code section.
#[derive(Debug)]
struct TextSection {
    entries: Vec<String>,
}

/// The sections of an assembly program.
#[derive(Debug)]
pub struct Sections {
    ro_data: RoDataSection,
    text: TextSection,
}

impl RoDataSection {
    /// The lines of the section.
    pub closed spec fn lines(&self) -> Seq<Seq<char>> {
        strings_view(self.entries@)
    }
}

impl TextSection {
    /// The lines of the section.
    pub closed spec fn lines(&self) -> Seq<Seq<char>> {
        strings_view(self.entries@)
    }
}

impl Default for RoDataSection {
    fn default() -> (s: Self)
        ensures
            s.lines().len() == 0,
    {
        RoDataSection { entries: Vec::new() }
    }
}

impl Default for TextSection {
    fn default() -> (s: Self)
        ensures
            s.lines().len() == 0,
    {
        TextSection { entries: Vec::new() }
    }
}

impl Sections {
    /// The lines of the read-only data section.
    pub closed spec fn ro_data_entries(&self) -> Seq<Seq<char>> {
        self.ro_data.lines()
    }

    /// The lines of the code section.
    pub closed spec fn text_entries(&self) -> Seq<Seq<char>> {
        self.text.lines()
    }
}

impl Default for Sections {
    fn default() -> (s: Self)
        ensures
            s.ro_data_entries().len() == 0,
            s.text_entries().len() == 0,
    {
        Sections { ro_data: RoDataSection::default(), text: TextSection::default() }
    }
}

/// A constant whose value is a string literal.
pub open spec fn is_string_constant(d: Declaration) -> bool {
    d.value matches Expression::Literal { kind: LiteralKind::String, .. }
}

/// The text of a constant's literal value.
pub open spec fn constant_value(d: Declaration) -> Seq<char> {
    match d.value {
        Expression::Literal { value, .. } => value@,
        _ => Seq::empty(),
    }
}

/// The read-only data lines of a string constant: its bytes under its name,
/// and its length under the name followed by `_len`.
pub open spec fn constant_lines(name: Seq<char>, value: Seq<char>) -> Seq<Seq<char>> {
    seq![name + " db \""@ + value + "\""@, name + "_len equ $ - "@ + name]
}

/// The code lines of a function: an empty line, a comment listing the
/// parameters if it has any, its label and a return.
pub open spec fn function_lines(name: Seq<char>, params: Seq<Seq<char>>) -> Seq<Seq<char>> {
    seq![Seq::<char>::empty()] + (if params.len() > 0 {
        seq!["; "@ + params_debug_text(params)]
    } else {
        Seq::<Seq<char>>::empty()
    }) + seq![name + ":"@, "ret"@]
}

/// The read-only data lines of the constants among `symbols`, in order.
pub open spec fn ro_data_lines<'a>(symbols: Seq<Symbol<'a>>) -> Seq<Seq<char>>
    decreases symbols.len(),
{
    if symbols.len() == 0 {
        Seq::empty()
    } else {
        ro_data_lines(symbols.drop_last()) + match symbols.last().definition {
            SymbolDefinition::Variable(d) => constant_lines(d.name@, constant_value(*d)),
            SymbolDefinition::Function(_) => Seq::empty(),
        }
    }
}

/// The code lines of the functions among `symbols`, in order.
pub open spec fn text_lines<'a>(symbols: Seq<Symbol<'a>>) -> Seq<Seq<char>>
    decreases symbols.len(),
{
    if symbols.len() == 0 {
        Seq::empty()
    } else {
        text_lines(symbols.drop_last()) + match symbols.last().definition {
            SymbolDefinition::Variable(_) => Seq::empty(),
            SymbolDefinition::Function(f) => function_lines(f.name@, strings_view(f.params@)),
        }
    }
}

/// Lines joined into text, each followed by a line break.
pub open spec fn lines_text(ls: Seq<Seq<char>>) -> Seq<char>
    decreases ls.len(),
{
    if ls.len() == 0 {
        Seq::empty()
    } else {
        lines_text(ls.drop_last()) + ls.last() + seq!['\n']
    }
}

/// The start of the code section: the entry point calls `main` and exits
/// with its result.
pub open spec fn text_header() -> Seq<char> {
    "section .text\n\nglobal _start\n_start:\n\ncall main\n\nmov rdi, rax\nmov rax, 60\nsyscall\n"@
}

/// The assembly text of a program whose global symbols are `symbols`.
pub open spec fn asm_text<'a>(symbols: Seq<Symbol<'a>>) -> Seq<char> {
    "section .rodata\n\n"@ + lines_text(ro_data_lines(symbols)) + text_header() + lines_text(
        text_lines(symbols),
    )
}

/// The read-only data lines of one symbol: a constant's two lines, nothing
/// for a function.
pub open spec fn symbol_ro_data<'a>(sym: Symbol<'a>) -> Seq<Seq<char>> {
    match sym.definition {
        SymbolDefinition::Variable(d) => constant_lines(d.name@, constant_value(*d)),
        SymbolDefinition::Function(_) => Seq::empty(),
    }
}

/// The read-only data of two runs of symbols, one after the other, is the
/// data of the first run followed by the data of the second: no constant's
/// lines are split or moved by the constants around it.
pub proof fn lemma_ro_data_lines_append<'a>(a: Seq<Symbol<'a>>, b: Seq<Symbol<'a>>)
    ensures
        ro_data_lines(a + b) == ro_data_lines(a) + ro_data_lines(b),
    decreases b.len(),
{
    if b.len() == 0 {
        assert(a + b =~= a);
        assert(ro_data_lines(a) + ro_data_lines(b) =~= ro_data_lines(a));
    } else {
        assert((a + b).drop_last() =~= a + b.drop_last());
        assert((a + b).last() == b.last());
        lemma_ro_data_lines_append(a, b.drop_last());
        assert(ro_data_lines(a + b) =~= ro_data_lines(a) + ro_data_lines(b));
    }
}

/// The code lines of two runs of symbols, one after the other, are the
/// lines of the first run followed by those of the second.
pub proof fn lemma_text_lines_append<'a>(a: Seq<Symbol<'a>>, b: Seq<Symbol<'a>>)
    ensures
        text_lines(a + b) == text_lines(a) + text_lines(b),
    decreases b.len(),
{
    if b.len() == 0 {
        assert(a + b =~= a);
        assert(text_lines(a) + text_lines(b) =~= text_lines(a));
    } else {
        assert((a + b).drop_last() =~= a + b.drop_last());
        assert((a + b).last() == b.last());
        lemma_text_lines_append(a, b.drop_last());
        assert(text_lines(a + b) =~= text_lines(a) + text_lines(b));
    }
}

/// The read-only data of a single constant is its `db` line followed by its
/// `_len` line; a single function has none.
pub proof fn lemma_ro_data_lines_single<'a>(sym: Symbol<'a>)
    ensures
        ro_data_lines(seq![sym]) == symbol_ro_data(sym),
{
    assert(seq![sym].drop_last() =~= Seq::<Symbol<'a>>::empty());
    assert(seq![sym].last() == sym);
    assert(ro_data_lines(Seq::<Symbol<'a>>::empty()) == Seq::<Seq<char>>::empty());
    assert(Seq::<Seq<char>>::empty() + symbol_ro_data(sym) =~= symbol_ro_data(sym));
}

/// Each constant's two lines stand together in the read-only data, between
/// the lines of the symbols before it and those of the symbols after it: the
/// `_len` line directly follows the constant's own `db` line, so the length
/// it measures is that of this constant alone.
pub proof fn lemma_constant_lines_together<'a>(symbols: Seq<Symbol<'a>>, i: int)
    requires
        0 <= i < symbols.len(),
    ensures
        ro_data_lines(symbols) == ro_data_lines(symbols.take(i)) + symbol_ro_data(symbols[i])
            + ro_data_lines(symbols.skip(i + 1)),
{
    let before = symbols.take(i);
    let after = symbols.skip(i + 1);
    assert(symbols =~= before + seq![symbols[i]] + after);
    lemma_ro_data_lines_append(before + seq![symbols[i]], after);
    lemma_ro_data_lines_append(before, seq![symbols[i]]);
    lemma_ro_data_lines_single(symbols[i]);
}

/// Whether a node defines a global symbol (a function or a constant).
pub open spec fn defines_symbol(n: Node) -> bool {
    !(n is StructDef)
}

/// The nodes that define global symbols, in order.
pub open spec fn symbol_nodes(ns: Seq<Node>) -> Seq<Node>
    decreases ns.len(),
{
    if ns.len() == 0 {
        Seq::empty()
    } else {
        symbol_nodes(ns.drop_last()) + if defines_symbol(ns.last()) {
            seq![ns.last()]
        } else {
            Seq::empty()
        }
    }
}

/// The nodes that define struct types, in order.
pub open spec fn struct_nodes(ns: Seq<Node>) -> Seq<Node>
    decreases ns.len(),
{
    if ns.len() == 0 {
        Seq::empty()
    } else {
        struct_nodes(ns.drop_last()) + if ns.last() is StructDef {
            seq![ns.last()]
        } else {
            Seq::empty()
        }
    }
}

/// A symbol stands for a node: it has the node's name and refers to its
/// definition.
pub open spec fn symbol_of_node<'a>(s: Symbol<'a>, n: Node) -> bool {
    match n {
        Node::Function(f) => s.name@ == f.name@ && (s.definition matches SymbolDefinition::Function(
            g,
        ) && *g == f),
        Node::ConstDecl(d) => s.name@ == d.name@ && (s.definition matches SymbolDefinition::Variable(
            e,
        ) && *e == d),
        Node::StructDef(_) => false,
    }
}

/// A type is a copy of the struct that a node defines.
pub open spec fn type_of_node(t: Type, n: Node) -> bool {
    match (t, n) {
        (Type::Struct(a), Node::StructDef(b)) => a.name == b.name && a.fields@ == b.fields@,
        _ => false,
    }
}

/// Assembles a program from its nodes.
#[derive(Debug)]
pub struct Generator<'a> {
    ast: &'a [Node],
    types: TypeTable,
    global_symbols: SymbolTable<'a>,
}

impl<'a> Generator<'a> {
    /// The nodes of the program.
    pub closed spec fn source(&self) -> Seq<Node> {
        self.ast@
    }

    /// The table of global symbols.
    pub closed spec fn symbol_table(&self) -> SymbolTable<'a> {
        self.global_symbols
    }

    /// The table of struct types.
    pub closed spec fn type_table(&self) -> TypeTable {
        self.types
    }

    /// The global symbols, in the order of the nodes that define them.
    pub open spec fn symbols(&self) -> Seq<Symbol<'a>> {
        self.symbol_table().symbols@
    }

    /// The struct types, in the order of the nodes that define them.
    pub open spec fn types(&self) -> Seq<Type> {
        self.type_table().types@
    }

    /// The symbol and type tables are consistent: each maps every name to
    /// its last definition.
    pub open spec fn wf(&self) -> bool {
        self.symbol_table().wf() && self.type_table().wf()
    }

    /// Every constant among the global symbols has a string literal value.
    pub open spec fn constants_are_strings(&self) -> bool {
        forall|i: int|
            0 <= i < self.symbols().len() ==> ((#[trigger] self.symbols()[i]).definition matches SymbolDefinition::Variable(
                d,
            ) ==> is_string_constant(*d))
    }

    /// Collects the global symbols and the struct types of a program.
    pub fn new(ast: &'a [Node]) -> (g: Self)
        ensures
            g.wf(),
            g.source() == ast@,
            g.symbol_table().parent is None,
            g.symbols().len() == symbol_nodes(ast@).len(),
            forall|i: int|
                0 <= i < g.symbols().len() ==> symbol_of_node(
                    #[trigger] g.symbols()[i],
                    symbol_nodes(ast@)[i],
                ),
            g.types().len() == struct_nodes(ast@).len(),
            forall|i: int|
                0 <= i < g.types().len() ==> type_of_node(
                    #[trigger] g.types()[i],
                    struct_nodes(ast@)[i],
                ),
    {
        let mut types = TypeTable::new();
        let mut global_symbols = SymbolTable::new();
        let mut i: usize = 0;
        while i < ast.len()
            invariant
                i <= ast@.len(),
                types.wf(),
                global_symbols.wf(),
                global_symbols.parent is None,
                global_symbols.symbols@.len() == symbol_nodes(ast@.take(i as int)).len(),
                forall|j: int|
                    0 <= j < global_symbols.symbols@.len() ==> symbol_of_node(
                        #[trigger] global_symbols.symbols@[j],
                        symbol_nodes(ast@.take(i as int))[j],
                    ),
                types.types@.len() == struct_nodes(ast@.take(i as int)).len(),
                forall|j: int|
                    0 <= j < types.types@.len() ==> type_of_node(
                        #[trigger] types.types@[j],
                        struct_nodes(ast@.take(i as int))[j],
                    ),
            decreases ast.len() - i,
        {
            let node: &'a Node = &ast[i];
            proof {
                assert(ast@.take(i + 1).drop_last() =~= ast@.take(i as int));
                assert(ast@.take(i + 1).last() == *node);
            }
            match node {
                Node::Function(function) => global_symbols.push(
                    Symbol { name: function.name.clone(), definition: SymbolDefinition::Function(function) },
                ),
                Node::ConstDecl(decl) => {
                    global_symbols.push(
                        Symbol { name: decl.name.clone(), definition: SymbolDefinition::Variable(decl) },
                    );
                },
                Node::StructDef(struct_def) => types.push(Type::Struct(struct_def.clone())),
            }
            i += 1;
        }
        proof {
            assert(ast@.take(ast@.len() as int) =~= ast@);
        }
        Generator { ast, types, global_symbols }
    }

    /// The read-only data lines of a constant whose value is a string
    /// literal. Constants of other kinds are not provided for.
    pub fn resolve_constant(&self, declaration: &'a Declaration) -> (lines: Vec<String>)
        requires
            is_string_constant(*declaration),
        ensures
            strings_view(lines@) == constant_lines(declaration.name@, constant_value(*declaration)),
    {
        match &declaration.value {
            Expression::Literal { kind: LiteralKind::String, value } => {
                let mut first = declaration.name.clone();
                first.append(" db \"");
                first.append(value.as_str());
                first.append("\"");
                let mut second = declaration.name.clone();
                second.append("_len equ $ - ");
                second.append(declaration.name.as_str());
                let mut lines: Vec<String> = Vec::new();
                lines.push(first);
                lines.push(second);
                proof {
                    assert(strings_view(lines@) =~= constant_lines(
                        declaration.name@,
                        constant_value(*declaration),
                    ));
                }
                lines
            },
            _ => {
                proof {
                    assert(false);
                }
                Vec::new()
            },
        }
    }

    /// The code lines of a function.
    pub fn generate_function(&self, definition: &FunctionDefinition) -> (lines: Vec<String>)
        ensures
            strings_view(lines@) == function_lines(definition.name@, strings_view(definition.params@)),
    {
        let mut lines: Vec<String> = Vec::new();
        lines.push(String::new());
        if definition.params.len() > 0 {
            let mut comment = String::from_str("; ");
            let params = params_debug(&definition.params);
            comment.append(params.as_str());
            lines.push(comment);
        }
        let mut label = definition.name.clone();
        label.append(":");
        lines.push(label);
        lines.push(String::from_str("ret"));
        proof {
            assert(strings_view(lines@) =~= function_lines(
                definition.name@,
                strings_view(definition.params@),
            ));
        }
        lines
    }

    /// The assembly text of the program: the read-only data section with
    /// the lines of every constant, then the code section, whose entry point
    /// calls `main` and exits with its result, with the lines of every
    /// function. Every constant must have a string literal value.
    pub fn generate_asm(&self) -> (assembly: String)
        requires
            self.constants_are_strings(),
        ensures
            assembly@ == asm_text(self.symbols()),
    {
        let mut sections = Sections::default();
        let n = self.global_symbols.symbols.len();
        let mut i: usize = 0;
        while i < n
            invariant
                n == self.symbols().len(),
                i <= n,
                self.constants_are_strings(),
                sections.ro_data_entries() == ro_data_lines(self.symbols().take(i as int)),
                sections.text_entries() == text_lines(self.symbols().take(i as int)),
            decreases n - i,
        {
            let ghost ro0 = sections.ro_data.entries@;
            let ghost text0 = sections.text.entries@;
            proof {
                assert(self.symbols().take(i + 1).drop_last() =~= self.symbols().take(i as int));
                assert(self.symbols().take(i + 1).last() == self.symbols()[i as int]);
            }
            match self.global_symbols.symbols[i].definition {
                SymbolDefinition::Variable(declaration) => {
                    let mut lines = self.resolve_constant(declaration);
                    let ghost added = lines@;
                    sections.ro_data.entries.append(&mut lines);
                    proof {
                        assert(strings_view(ro0 + added) =~= strings_view(ro0) + strings_view(added));
                        assert(sections.text.entries@ == text0);
                        assert(strings_view(text0) =~= strings_view(text0) + Seq::<Seq<char>>::empty());
                    }
                },
                SymbolDefinition::Function(function_definition) => {
                    let mut lines = self.generate_function(function_definition);
                    let ghost added = lines@;
                    sections.text.entries.append(&mut lines);
                    proof {
                        assert(strings_view(text0 + added) =~= strings_view(text0) + strings_view(added));
                        assert(strings_view(ro0) =~= strings_view(ro0) + Seq::<Seq<char>>::empty());
                    }
                },
            }
            i += 1;
        }
        proof {
            assert(self.symbols().take(n as int) =~= self.symbols());
        }
        let mut assembly = String::new();
        assembly.append("section .rodata\n\n");
        append_lines(&mut assembly, &sections.ro_data.entries);
        assembly.append(
            "section .text\n\nglobal _start\n_start:\n\ncall main\n\nmov rdi, rax\nmov rax, 60\nsyscall\n",
        );
        append_lines(&mut assembly, &sections.text.entries);
        proof {
            assert(assembly@ =~= asm_text(self.symbols()));
        }
        assembly
    }
}

/// Appends each line to `text`, followed by a line break.
fn append_lines(text: &mut String, lines: &Vec<String>)
    ensures
        final(text)@ == old(text)@ + lines_text(strings_view(lines@)),
{
    let mut i: usize = 0;
    while i < lines.len()
        invariant
            i <= lines.len(),
            text@ == old(text)@ + lines_text(strings_view(lines@.take(i as int))),
        decreases lines.len() - i,
    {
        proof {
            assert(strings_view(lines@.take(i + 1)).drop_last() =~= strings_view(lines@.take(i as int)));
        }
        text.append(lines[i].as_str());
        push_char(text, '\n');
        i += 1;
        proof {
            assert(text@ =~= old(text)@ + lines_text(strings_view(lines@.take(i as int))));
        }
    }
    proof {
        assert(lines@.take(lines.len() as int) =~= lines@);
    }
}

} // verus!
