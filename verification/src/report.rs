//! The text forms in which the compiler writes out its tokens and trees.

use crate::compiler::parser::{ast_view, asts_view, AstV, Number, AST};
use crate::compiler::tokenizer::{
    kind_label, kind_str, name_label, name_str, tokens_view, Token, TokenV,
};
use crate::text::{debug_quote, debug_quoted, decimal, pad_right, push_decimal, push_padded};
use vstd::prelude::*;
use vstd::string::StringExecFns;

verus! {

broadcast use vstd::string::group_string_axioms;

/// One line of the token listing: kind and name padded to 12 characters,
/// the line padded to 4, and the quoted text, separated by spaces.
pub open spec fn token_line(t: TokenV) -> Seq<char> {
    pad_right(kind_label(t.kind), 12) + " "@ + pad_right(name_label(t.name), 12) + " "@ + pad_right(
        decimal(t.line),
        4,
    ) + " "@ + debug_quoted(t.text) + "\n"@
}

/// The token listing: one line per token, in order.
pub open spec fn token_lines(ts: Seq<TokenV>) -> Seq<char>
    decreases ts.len(),
{
    if ts.len() == 0 {
        Seq::empty()
    } else {
        token_lines(ts.drop_last()) + token_line(ts.last())
    }
}

/// The listing of two lists one after the other is the listing of the
/// first followed by that of the second; each token gives one line, which
/// ends in a newline.
pub proof fn law_token_lines_concat(a: Seq<TokenV>, b: Seq<TokenV>)
    ensures
        token_lines(a + b) == token_lines(a) + token_lines(b),
        b.len() > 0 ==> token_lines(a + b) == token_lines(a + b.drop_last()) + token_line(b.last()),
        b.len() > 0 ==> token_line(b.last()).last() == '\n',
    decreases b.len(),
{
    if b.len() == 0 {
        assert(a + b =~= a);
        assert(token_lines(a) + token_lines(b) =~= token_lines(a));
    } else {
        reveal_strlit("\n");
        let t = b.last();
        let head = pad_right(kind_label(t.kind), 12) + " "@ + pad_right(name_label(t.name), 12)
            + " "@ + pad_right(decimal(t.line), 4) + " "@ + debug_quoted(t.text);
        assert(token_line(t) == head + "\n"@);
        assert((head + "\n"@)[head.len() as int] == '\n');
        law_token_lines_concat(a, b.drop_last());
        assert((a + b).drop_last() =~= a + b.drop_last());
        assert((a + b).last() == b.last());
        assert(token_lines(a) + token_lines(b.drop_last()) + token_line(b.last()) =~= token_lines(
            a,
        ) + (token_lines(b.drop_last()) + token_line(b.last())));
    }
}

fn write_token_line(output: &mut String, group: &Token)
    ensures
        final(output)@ == old(output)@ + token_line(group@),
{
    push_padded(output, kind_str(group.of.kind), 12);
    output.append(" ");
    push_padded(output, name_str(group.of.name), 12);
    output.append(" ");
    let mut line = String::new();
    push_decimal(&mut line, group.meta.line as u64);
    assert(line@ =~= decimal(group.meta.line as nat));
    push_padded(output, line.as_str(), 4);
    output.append(" ");
    let quoted = debug_quote(group.meta.text.as_str());
    output.append(quoted.as_str());
    output.append("\n");
    assert(final(output)@ =~= old(output)@ + token_line(group@));
}

/// Lists the tokens, one line each (see `token_line`).
pub fn token_string(data: &Vec<Token>) -> (output: String)
    ensures
        output@ == token_lines(tokens_view(data@)),
{
    let mut output = String::new();
    let mut k: usize = 0;
    while k < data.len()
        invariant
            k <= data@.len(),
            output@ == token_lines(tokens_view(data@).take(k as int)),
        decreases data@.len() - k,
    {
        let group = &data[k];
        let ghost before = output@;
        write_token_line(&mut output, group);
        proof {
            let ts = tokens_view(data@);
            assert(ts.take(k + 1).drop_last() =~= ts.take(k as int));
            assert(ts.take(k + 1).last() == group@);
            assert(output@ =~= before + token_line(group@));
        }
        k += 1;
    }
    assert(tokens_view(data@).take(data@.len() as int) =~= tokens_view(data@));
    output
}

/// The variant name of a number type.
pub open spec fn number_label(n: Number) -> Seq<char> {
    match n {
        Number::Integer => "Integer"@,
        Number::Decimal => "Decimal"@,
        Number::Boolean => "Boolean"@,
        Number::I8 => "I8"@,
        Number::I16 => "I16"@,
        Number::I32 => "I32"@,
        Number::I64 => "I64"@,
        Number::I128 => "I128"@,
        Number::U8 => "U8"@,
        Number::U16 => "U16"@,
        Number::U32 => "U32"@,
        Number::U64 => "U64"@,
        Number::U128 => "U128"@,
        Number::F32 => "F32"@,
        Number::F64 => "F64"@,
        Number::F128 => "F128"@,
    }
}

fn number_str(n: &Number) -> (r: &'static str)
    ensures
        r@ == number_label(*n),
{
    match n {
        Number::Integer => "Integer",
        Number::Decimal => "Decimal",
        Number::Boolean => "Boolean",
        Number::I8 => "I8",
        Number::I16 => "I16",
        Number::I32 => "I32",
        Number::I64 => "I64",
        Number::I128 => "I128",
        Number::U8 => "U8",
        Number::U16 => "U16",
        Number::U32 => "U32",
        Number::U64 => "U64",
        Number::U128 => "U128",
        Number::F32 => "F32",
        Number::F64 => "F64",
        Number::F128 => "F128",
    }
}

pub open spec fn bool_label(b: bool) -> Seq<char> {
    if b {
        "true"@
    } else {
        "false"@
    }
}

/// Four more spaces of indentation.
pub open spec fn deeper(indent: Seq<char>) -> Seq<char> {
    indent + "    "@
}

/// A field of a tuple variant: on a line of its own, one level deeper,
/// followed by a comma.
pub open spec fn field(indent: Seq<char>, text: Seq<char>) -> Seq<char> {
    deeper(indent) + text + ",\n"@
}

/// A tree as `{:#?}` prints it, where `indent` is the indentation of the
/// line on which it starts: a variant without fields by its name; a variant
/// with fields by its name, `(`, each field on a line of its own one level
/// deeper and followed by a comma, and `)` at the starting indentation;
/// a list as `[]` when empty, or else as `[`, its items like fields, and `]`.
pub open spec fn pretty(a: AstV, indent: Seq<char>) -> Seq<char>
    decreases a, 2nat,
{
    match a {
        AstV::Nothing => "Nothing"@,
        AstV::Number(n, s) => "Number(\n"@ + field(indent, number_label(n)) + field(
            indent,
            debug_quoted(s),
        ) + indent + ")"@,
        AstV::String(s) => "String(\n"@ + field(indent, debug_quoted(s)) + indent + ")"@,
        AstV::Graph(v) => "Graph(\n"@ + field(indent, pretty_list(v, deeper(indent))) + indent
            + ")"@,
        AstV::Array(v) => "Array(\n"@ + field(indent, pretty_list(v, deeper(indent))) + indent
            + ")"@,
        AstV::Tuple(v) => "Tuple(\n"@ + field(indent, pretty_list(v, deeper(indent))) + indent
            + ")"@,
        AstV::Point(l, i, r, b) => "Point(\n"@ + field(indent, debug_quoted(l)) + field(
            indent,
            decimal(i as nat),
        ) + field(indent, bool_label(r)) + field(indent, pretty(*b, deeper(indent))) + indent
            + ")"@,
        AstV::Op2(n, x, y) => "Op2(\n"@ + field(indent, name_label(n)) + field(
            indent,
            pretty(*x, deeper(indent)),
        ) + field(indent, pretty(*y, deeper(indent))) + indent + ")"@,
        AstV::Op1(n, x) => "Op1(\n"@ + field(indent, name_label(n)) + field(
            indent,
            pretty(*x, deeper(indent)),
        ) + indent + ")"@,
        AstV::Ref(s) => "Ref(\n"@ + field(indent, debug_quoted(s)) + indent + ")"@,
        AstV::Arg(x) => "Arg(\n"@ + field(indent, pretty(*x, deeper(indent))) + indent + ")"@,
        AstV::Rep(x, y) => "Rep(\n"@ + field(indent, pretty(*x, deeper(indent))) + field(
            indent,
            pretty(*y, deeper(indent)),
        ) + indent + ")"@,
    }
}

/// A list of trees, starting on a line indented by `indent`.
pub open spec fn pretty_list(v: Seq<AstV>, indent: Seq<char>) -> Seq<char>
    decreases v, 1nat,
{
    if v.len() == 0 {
        "[]"@
    } else {
        "[\n"@ + pretty_items(v, indent) + indent + "]"@
    }
}

/// The items of a list, each like a field.
pub open spec fn pretty_items(v: Seq<AstV>, indent: Seq<char>) -> Seq<char>
    decreases v, 0nat,
{
    if v.len() == 0 {
        Seq::empty()
    } else {
        pretty_items(v.drop_last(), indent) + field(indent, pretty(v.last(), deeper(indent)))
    }
}

proof fn lemma_asts_take(v: Seq<AST>, k: int)
    requires
        0 <= k < v.len(),
    ensures
        asts_view(v.take(k + 1)) == asts_view(v.take(k)).push(ast_view(v[k])),
{
    assert(v.take(k + 1).drop_last() =~= v.take(k));
}

/// A point's text form writes its index in full: two points that differ
/// only in their index have text forms that differ only in the place of the
/// index, where each has the decimal form of its own index (which reads
/// back as that index, see `law_decimal_reads_back`).
pub proof fn law_point_index_in_full(
    label: Seq<char>,
    i: u16,
    j: u16,
    gives_back: bool,
    value: AstV,
    indent: Seq<char>,
)
    ensures
        exists|head: Seq<char>, tail: Seq<char>|
            pretty(AstV::Point(label, i, gives_back, Box::new(value)), indent) == head + decimal(
                i as nat,
            ) + tail && pretty(AstV::Point(label, j, gives_back, Box::new(value)), indent) == head
                + decimal(j as nat) + tail,
{
    let head = "Point(\n"@ + field(indent, debug_quoted(label)) + deeper(indent);
    let tail = ",\n"@ + field(indent, bool_label(gives_back)) + field(
        indent,
        pretty(value, deeper(indent)),
    ) + indent + ")"@;
    assert(pretty(AstV::Point(label, i, gives_back, Box::new(value)), indent) =~= head + decimal(
        i as nat,
    ) + tail);
    assert(pretty(AstV::Point(label, j, gives_back, Box::new(value)), indent) =~= head + decimal(
        j as nat,
    ) + tail);
}

fn deeper_indent(indent: &String) -> (d: String)
    ensures
        d@ == deeper(indent@),
{
    let mut d = indent.clone();
    d.append("    ");
    d
}

fn write_field_start(out: &mut String, indent: &String)
    ensures
        final(out)@ == old(out)@ + deeper(indent@),
{
    out.append(indent.as_str());
    out.append("    ");
    assert(final(out)@ =~= old(out)@ + deeper(indent@));
}

fn write_field_end(out: &mut String)
    ensures
        final(out)@ == old(out)@ + ",\n"@,
{
    out.append(",\n");
}

fn write_quoted_field(out: &mut String, indent: &String, s: &String)
    ensures
        final(out)@ == old(out)@ + field(indent@, debug_quoted(s@)),
{
    write_field_start(out, indent);
    let q = debug_quote(s.as_str());
    out.append(q.as_str());
    write_field_end(out);
    assert(final(out)@ =~= old(out)@ + field(indent@, debug_quoted(s@)));
}

fn write_text_field(out: &mut String, indent: &String, s: &str)
    ensures
        final(out)@ == old(out)@ + field(indent@, s@),
{
    write_field_start(out, indent);
    out.append(s);
    write_field_end(out);
    assert(final(out)@ =~= old(out)@ + field(indent@, s@));
}

fn write_tree_field(out: &mut String, indent: &String, a: &AST)
    ensures
        final(out)@ == old(out)@ + field(indent@, pretty(a@, deeper(indent@))),
    decreases *a, 2nat,
{
    write_field_start(out, indent);
    let d = deeper_indent(indent);
    write_ast(out, a, &d);
    write_field_end(out);
    assert(final(out)@ =~= old(out)@ + field(indent@, pretty(a@, deeper(indent@))));
}

fn write_close(out: &mut String, indent: &String)
    ensures
        final(out)@ == old(out)@ + indent@ + ")"@,
{
    out.append(indent.as_str());
    out.append(")");
}

fn write_list_field(out: &mut String, indent: &String, v: &Vec<AST>)
    ensures
        final(out)@ == old(out)@ + field(indent@, pretty_list(asts_view(v@), deeper(indent@))),
    decreases *v, 2nat,
{
    write_field_start(out, indent);
    let d = deeper_indent(indent);
    if v.len() == 0 {
        out.append("[]");
    } else {
        out.append("[\n");
        write_items(out, v, &d);
        out.append(d.as_str());
        out.append("]");
    }
    write_field_end(out);
    assert(final(out)@ =~= old(out)@ + field(indent@, pretty_list(asts_view(v@), deeper(indent@))));
}

fn write_items(out: &mut String, v: &Vec<AST>, indent: &String)
    ensures
        final(out)@ == old(out)@ + pretty_items(asts_view(v@), indent@),
    decreases *v, 1nat,
{
    let mut k: usize = 0;
    assert(asts_view(v@.take(0)) =~= Seq::<AstV>::empty());
    while k < v.len()
        invariant
            k <= v@.len(),
            out@ == old(out)@ + pretty_items(asts_view(v@.take(k as int)), indent@),
        decreases v@.len() - k,
    {
        proof {
            lemma_asts_take(v@, k as int);
            assert(asts_view(v@.take(k + 1)).drop_last() =~= asts_view(v@.take(k as int)));
        }
        write_tree_field(out, indent, &v[k]);
        k += 1;
    }
    assert(v@.take(v@.len() as int) =~= v@);
}

fn write_leaf(out: &mut String, a: &AST, indent: &String)
    requires
        a is Nothing || a is Number || a is String || a is Ref,
    ensures
        final(out)@ == old(out)@ + pretty(a@, indent@),
{
    let ghost before = out@;
    match a {
        AST::Nothing => {
            out.append("Nothing");
        },
        AST::Number(n, s) => {
            out.append("Number(\n");
            write_text_field(out, indent, number_str(n));
            write_quoted_field(out, indent, s);
            write_close(out, indent);
        },
        AST::String(s) => {
            out.append("String(\n");
            write_quoted_field(out, indent, s);
            write_close(out, indent);
        },
        AST::Ref(s) => {
            out.append("Ref(\n");
            write_quoted_field(out, indent, s);
            write_close(out, indent);
        },
        _ => {},
    }
    assert(out@ =~= before + pretty(a@, indent@));
}

fn write_listy(out: &mut String, a: &AST, indent: &String)
    requires
        a is Graph || a is Array || a is Tuple,
    ensures
        final(out)@ == old(out)@ + pretty(a@, indent@),
    decreases *a, 0nat,
{
    let ghost before = out@;
    match a {
        AST::Graph(v) => {
            out.append("Graph(\n");
            write_list_field(out, indent, v);
            write_close(out, indent);
        },
        AST::Array(v) => {
            out.append("Array(\n");
            write_list_field(out, indent, v);
            write_close(out, indent);
        },
        AST::Tuple(v) => {
            out.append("Tuple(\n");
            write_list_field(out, indent, v);
            write_close(out, indent);
        },
        _ => {},
    }
    assert(out@ =~= before + pretty(a@, indent@));
}

fn write_point(out: &mut String, a: &AST, indent: &String)
    requires
        a is Point,
    ensures
        final(out)@ == old(out)@ + pretty(a@, indent@),
    decreases *a, 0nat,
{
    let ghost before = out@;
    match a {
        AST::Point(l, i, r, b) => {
            out.append("Point(\n");
            write_quoted_field(out, indent, l);
            let mut number = String::new();
            push_decimal(&mut number, *i as u64);
            assert(number@ =~= decimal(*i as nat));
            write_text_field(out, indent, number.as_str());
            write_text_field(
                out,
                indent,
                if *r {
                    "true"
                } else {
                    "false"
                },
            );
            write_tree_field(out, indent, b);
            write_close(out, indent);
        },
        _ => {},
    }
    assert(out@ =~= before + pretty(a@, indent@));
}

#[verifier::rlimit(30)]
fn write_operation(out: &mut String, a: &AST, indent: &String)
    requires
        a is Op2 || a is Op1 || a is Arg || a is Rep,
    ensures
        final(out)@ == old(out)@ + pretty(a@, indent@),
    decreases *a, 0nat,
{
    let ghost before = out@;
    match a {
        AST::Op2(n, x, y) => {
            out.append("Op2(\n");
            write_text_field(out, indent, name_str(*n));
            write_tree_field(out, indent, x);
            write_tree_field(out, indent, y);
            write_close(out, indent);
        },
        AST::Op1(n, x) => {
            out.append("Op1(\n");
            write_text_field(out, indent, name_str(*n));
            write_tree_field(out, indent, x);
            write_close(out, indent);
        },
        AST::Arg(x) => {
            out.append("Arg(\n");
            write_tree_field(out, indent, x);
            write_close(out, indent);
        },
        AST::Rep(x, y) => {
            out.append("Rep(\n");
            write_tree_field(out, indent, x);
            write_tree_field(out, indent, y);
            write_close(out, indent);
        },
        _ => {},
    }
    assert(out@ =~= before + pretty(a@, indent@));
}

/// Writes a tree as `{:#?}` does (see `pretty`), starting on a line
/// indented by `indent`.
fn write_ast(out: &mut String, a: &AST, indent: &String)
    ensures
        final(out)@ == old(out)@ + pretty(a@, indent@),
    decreases *a, 1nat,
{
    match a {
        AST::Nothing | AST::Number(..) | AST::String(..) | AST::Ref(..) => write_leaf(
            out,
            a,
            indent,
        ),
        AST::Graph(..) | AST::Array(..) | AST::Tuple(..) => write_listy(out, a, indent),
        AST::Point(..) => write_point(out, a, indent),
        _ => write_operation(out, a, indent),
    }
}

/// The tree as `{:#?}` prints it (see `pretty`).
pub fn ast_string(data: &AST) -> (output: String)
    ensures
        output@ == pretty(data@, Seq::empty()),
{
    let mut output = String::new();
    let indent = String::new();
    write_ast(&mut output, data, &indent);
    output
}

} // verus!
